//! The extraction of one archive, as a sequence of decisions: what is to
//! be done next, given what happened last.

use vstd::prelude::*;
use crate::codepage::Codepage;
use crate::command::ArchiveCount;
use crate::config::AppConfig;
use crate::error::{ErrorView, SevenzError};
use crate::node::opt_view;
use crate::staging::{trim_target, trimmed_all};
use crate::text::string_views;

verus! {

/// An archive to extract: its path, and the password and codepage chosen
/// for it, if any.
#[derive(Debug, Clone)]
pub struct Archive {
    pub path: String,
    pub password: Option<String>,
    pub codepage: Option<Codepage>,
}

/// What is told of the extraction of an archive while it goes on.
#[derive(Debug, Clone)]
pub enum UnzipedArchiveStatus {
    /// Something was made in the staging directory, at this path inside
    /// it.
    FileStaged(String),
    /// The extraction has begun.
    Running,
    /// The archive's entries are in their place.
    Completed,
    /// The extraction failed.
    Failed(SevenzError),
}

/// A status as the contracts see it.
pub enum StatusView {
    FileStaged(Seq<char>),
    Running,
    Completed,
    Failed(ErrorView),
}

impl View for UnzipedArchiveStatus {
    type V = StatusView;

    open spec fn view(&self) -> StatusView {
        match *self {
            UnzipedArchiveStatus::FileStaged(p) => StatusView::FileStaged(p@),
            UnzipedArchiveStatus::Running => StatusView::Running,
            UnzipedArchiveStatus::Completed => StatusView::Completed,
            UnzipedArchiveStatus::Failed(e) => StatusView::Failed(e@),
        }
    }
}

/// How far the extraction of an archive has come.
#[derive(Debug, Clone, Copy, PartialEq, Eq, Structural)]
pub enum Phase {
    Init,
    /// The archive is being tested with a password.
    Probing,
    /// The staging directory is being made.
    Staging,
    /// The tool is extracting into the staging directory.
    Extracting,
    /// The entries are being moved to the target directory.
    Finalizing,
    Completed,
    Failed,
}

/// What happened last.
#[derive(Debug, Clone)]
pub enum Event {
    /// The extraction is asked for.
    Start,
    /// The test ended: with the counts of the archive, or badly.
    Probed(Option<ArchiveCount>),
    /// The staging directory is there.
    Staged,
    /// Something was made in the staging directory: a folder or a file,
    /// at this path inside it.
    Created { folder: bool, path: String },
    /// A look at the tool: it is still at work, or it has ended, well or
    /// badly.
    Polled(Option<bool>),
    /// The entries are in the target directory, and the staging directory
    /// is gone.
    Finalized,
}

/// An event as the contracts see it.
pub enum EventView {
    Start,
    Probed(Option<ArchiveCount>),
    Staged,
    Created { folder: bool, path: Seq<char> },
    Polled(Option<bool>),
    Finalized,
}

impl View for Event {
    type V = EventView;

    open spec fn view(&self) -> EventView {
        match *self {
            Event::Start => EventView::Start,
            Event::Probed(c) => EventView::Probed(c),
            Event::Staged => EventView::Staged,
            Event::Created { folder, path } => EventView::Created { folder, path: path@ },
            Event::Polled(p) => EventView::Polled(p),
            Event::Finalized => EventView::Finalized,
        }
    }
}

/// What is to be done next.
#[derive(Debug, Clone)]
pub enum Action {
    /// Tell the status to whoever follows the extraction.
    Send(UnzipedArchiveStatus),
    /// Test the archive with this password.
    Test(Option<String>),
    /// Make the staging directory.
    MakeStaging,
    /// Watch the staging directory, and run the tool on the archive with
    /// this password and codepage, its input closed.
    Extract { password: Option<String>, codepage: Option<Codepage> },
    /// Wait a while for news from the staging directory, then look
    /// whether the tool has ended.
    Poll,
    /// Wait until the tool has ended.
    Await,
    /// Move the entries of the staging directory into the target
    /// directory, and remove the staging directory.
    Finalize,
    /// Remove the staging directory with all that is in it.
    Discard,
}

/// An action as the contracts see it.
pub enum ActionView {
    Send(StatusView),
    Test(Option<Seq<char>>),
    MakeStaging,
    Extract { password: Option<Seq<char>>, codepage: Option<Codepage> },
    Poll,
    Await,
    Finalize,
    Discard,
}

impl View for Action {
    type V = ActionView;

    open spec fn view(&self) -> ActionView {
        match *self {
            Action::Send(s) => ActionView::Send(s@),
            Action::Test(p) => ActionView::Test(opt_view(p)),
            Action::MakeStaging => ActionView::MakeStaging,
            Action::Extract { password, codepage } => ActionView::Extract {
                password: opt_view(password),
                codepage,
            },
            Action::Poll => ActionView::Poll,
            Action::Await => ActionView::Await,
            Action::Finalize => ActionView::Finalize,
            Action::Discard => ActionView::Discard,
        }
    }
}

/// The views of the actions of `v`.
pub open spec fn action_views(v: Seq<Action>) -> Seq<ActionView> {
    Seq::new(v.len(), |i: int| v[i]@)
}

/// The extraction of one archive.
#[derive(Debug, Clone)]
pub struct Unzip {
    archive: Archive,
    target: Vec<String>,
    password: Option<String>,
    passwords: Vec<String>,
    next_password: usize,
    phase: Phase,
    expected: ArchiveCount,
    folders: u64,
    files: u64,
}

/// An extraction as the contracts see it.
pub struct UnzipView {
    /// The path of the archive.
    pub path: Seq<char>,
    pub codepage: Option<Codepage>,
    /// The directory to extract to, by its components.
    pub target: Seq<Seq<char>>,
    /// The password in use.
    pub password: Option<Seq<char>>,
    /// The passwords left to try.
    pub passwords: Seq<Seq<char>>,
    pub phase: Phase,
    /// The counts that the test of the archive gave.
    pub expected: ArchiveCount,
    /// How many folders were seen made in the staging directory.
    pub folders: u64,
    /// How many files were seen made there.
    pub files: u64,
}

impl View for Unzip {
    type V = UnzipView;

    closed spec fn view(&self) -> UnzipView {
        UnzipView {
            path: self.archive.path@,
            codepage: self.archive.codepage,
            target: string_views(self.target@),
            password: opt_view(self.password),
            passwords: string_views(self.passwords@).skip(self.next_password as int),
            phase: self.phase,
            expected: self.expected,
            folders: self.folders,
            files: self.files,
        }
    }
}

/// One more, but no more than the counter can hold.
pub open spec fn counted(n: u64) -> u64 {
    if n < u64::MAX {
        (n + 1) as u64
    } else {
        n
    }
}

impl UnzipView {
    /// As many folders and files were seen made as the archive holds.
    pub open spec fn settled(self) -> bool {
        self.folders >= self.expected.folder && self.files >= self.expected.file
    }
}

/// The extraction after an event, and what is to be done then.
///
/// Asked to start, it says that it is running and has the archive tested.
/// A test that fails is made again with the next password that is left, and
/// fails the extraction where none is. After a test that went well the
/// staging directory is made, and then the tool is run and watched. Each
/// thing made in the staging directory is counted and told. While the tool
/// is at work, the wait for news goes on; but once as many folders and files
/// were seen as the test counted, all that is waited for is the end of the
/// tool. Once the tool has ended badly, the staging directory is discarded
/// and the extraction has failed. Once it has ended well, the entries are
/// moved to their place, and when that is done the extraction is completed.
/// An event that does not fit the phase changes nothing.
pub open spec fn step(s: UnzipView, e: EventView) -> (UnzipView, Seq<ActionView>) {
    match (s.phase, e) {
        (Phase::Init, EventView::Start) => (
            UnzipView { phase: Phase::Probing, ..s },
            seq![ActionView::Send(StatusView::Running), ActionView::Test(s.password)],
        ),
        (Phase::Probing, EventView::Probed(Some(count))) => (
            UnzipView { phase: Phase::Staging, expected: count, ..s },
            seq![ActionView::MakeStaging],
        ),
        (Phase::Probing, EventView::Probed(None)) => if s.passwords.len() > 0 {
            (
                UnzipView {
                    password: Some(s.passwords[0]),
                    passwords: s.passwords.skip(1),
                    ..s
                },
                seq![ActionView::Test(Some(s.passwords[0]))],
            )
        } else {
            (
                UnzipView { phase: Phase::Failed, ..s },
                seq![ActionView::Send(StatusView::Failed(ErrorView::NeedPassword(s.path)))],
            )
        },
        (Phase::Staging, EventView::Staged) => (
            UnzipView { phase: Phase::Extracting, ..s },
            seq![
                ActionView::Extract { password: s.password, codepage: s.codepage },
                ActionView::Poll,
            ],
        ),
        (Phase::Extracting, EventView::Created { folder, path }) => (
            if folder {
                UnzipView { folders: counted(s.folders), ..s }
            } else {
                UnzipView { files: counted(s.files), ..s }
            },
            seq![ActionView::Send(StatusView::FileStaged(path))],
        ),
        (Phase::Extracting, EventView::Polled(Some(false))) => (
            UnzipView { phase: Phase::Failed, ..s },
            seq![
                ActionView::Discard,
                ActionView::Send(
                    StatusView::Failed(ErrorView::CommandError("7z extract failed"@)),
                ),
            ],
        ),
        (Phase::Extracting, EventView::Polled(Some(true))) => (
            UnzipView { phase: Phase::Finalizing, ..s },
            seq![ActionView::Finalize],
        ),
        (Phase::Extracting, EventView::Polled(None)) => if s.settled() {
            (s, seq![ActionView::Await])
        } else {
            (s, seq![ActionView::Poll])
        },
        (Phase::Finalizing, EventView::Finalized) => (
            UnzipView { phase: Phase::Completed, ..s },
            seq![ActionView::Send(StatusView::Completed)],
        ),
        _ => (s, Seq::empty()),
    }
}

/// The extraction before it has begun: of `archive`, to the directory
/// `target` with its components trimmed, with the archive's own password or
/// else the one given for all archives, and with `passwords` to try where
/// that one fails.
pub open spec fn fresh(
    path: Seq<char>,
    own_password: Option<Seq<char>>,
    codepage: Option<Codepage>,
    target: Seq<Seq<char>>,
    global_password: Option<Seq<char>>,
    passwords: Seq<Seq<char>>,
) -> UnzipView {
    UnzipView {
        path,
        codepage,
        target: trimmed_all(target),
        password: match own_password {
            Some(p) => Some(p),
            None => global_password,
        },
        passwords,
        phase: Phase::Init,
        expected: ArchiveCount { folder: 0, file: 0 },
        folders: 0,
        files: 0,
    }
}

fn push_action(actions: &mut Vec<Action>, a: Action)
    ensures
        action_views(final(actions)@) == action_views(old(actions)@).push(a@),
{
    proof {
        assert(action_views(actions@.push(a)) == action_views(actions@).push(a@));
    }
    actions.push(a);
}

fn clone_opt(p: &Option<String>) -> (r: Option<String>)
    ensures
        opt_view(r) == opt_view(*p),
{
    match p {
        Some(s) => Some(s.clone()),
        None => None,
    }
}

impl Unzip {
    /// What holds of every extraction: it has used up no more passwords
    /// than it was given.
    pub closed spec fn wf(&self) -> bool {
        self.next_password <= self.passwords@.len()
    }

    /// An extraction that has not begun.
    pub fn new(
        archive: Archive,
        target_dir: &Vec<String>,
        global_password: &Option<String>,
        passwords: Vec<String>,
    ) -> (r: Unzip)
        ensures
            r.wf(),
            r@ == fresh(
                archive.path@,
                opt_view(archive.password),
                archive.codepage,
                string_views(target_dir@),
                opt_view(*global_password),
                string_views(passwords@),
            ),
    {
        let password = match &archive.password {
            Some(p) => Some(p.clone()),
            None => clone_opt(global_password),
        };
        proof {
            assert(string_views(passwords@).skip(0) == string_views(passwords@));
        }
        Unzip {
            archive,
            target: trim_target(target_dir),
            password,
            passwords,
            next_password: 0,
            phase: Phase::Init,
            expected: ArchiveCount { folder: 0, file: 0 },
            folders: 0,
            files: 0,
        }
    }

    /// How far the extraction has come.
    pub fn phase(&self) -> (r: Phase)
        ensures
            r == self@.phase,
    {
        self.phase
    }

    /// The directory to extract to, by its components.
    pub fn target(&self) -> (r: &Vec<String>)
        ensures
            string_views(r@) == self@.target,
    {
        &self.target
    }

    /// The archive that is extracted.
    pub fn archive(&self) -> (r: &Archive)
        ensures
            r.path@ == self@.path,
            r.codepage == self@.codepage,
    {
        &self.archive
    }

    /// Takes an event, and says what is to be done next.
    pub fn next(&mut self, event: Event) -> (actions: Vec<Action>)
        requires
            old(self).wf(),
        ensures
            final(self).wf(),
            (final(self)@, action_views(actions@)) == step(old(self)@, event@),
    {
        let mut actions: Vec<Action> = Vec::new();
        proof {
            assert(action_views(actions@) == Seq::<ActionView>::empty());
        }
        let ghost left = string_views(self.passwords@);
        match (self.phase, event) {
            (Phase::Init, Event::Start) => {
                self.phase = Phase::Probing;
                push_action(&mut actions, Action::Send(UnzipedArchiveStatus::Running));
                push_action(&mut actions, Action::Test(clone_opt(&self.password)));
            },
            (Phase::Probing, Event::Probed(Some(count))) => {
                self.phase = Phase::Staging;
                self.expected = count;
                push_action(&mut actions, Action::MakeStaging);
            },
            (Phase::Probing, Event::Probed(None)) => {
                if self.next_password < self.passwords.len() {
                    proof {
                        assert(left.skip(self.next_password as int)[0]
                            == self.passwords@[self.next_password as int]@);
                        assert(left.skip(self.next_password as int).skip(1) == left.skip(
                            self.next_password + 1,
                        ));
                    }
                    self.password = Some(self.passwords[self.next_password].clone());
                    self.next_password += 1;
                    push_action(&mut actions, Action::Test(clone_opt(&self.password)));
                } else {
                    self.phase = Phase::Failed;
                    push_action(
                        &mut actions,
                        Action::Send(
                            UnzipedArchiveStatus::Failed(
                                SevenzError::NeedPassword(self.archive.path.clone()),
                            ),
                        ),
                    );
                }
            },
            (Phase::Staging, Event::Staged) => {
                self.phase = Phase::Extracting;
                push_action(
                    &mut actions,
                    Action::Extract {
                        password: clone_opt(&self.password),
                        codepage: self.archive.codepage,
                    },
                );
                push_action(&mut actions, Action::Poll);
            },
            (Phase::Extracting, Event::Created { folder, path }) => {
                if folder {
                    if self.folders < u64::MAX {
                        self.folders += 1;
                    }
                } else {
                    if self.files < u64::MAX {
                        self.files += 1;
                    }
                }
                push_action(&mut actions, Action::Send(UnzipedArchiveStatus::FileStaged(path)));
            },
            (Phase::Extracting, Event::Polled(Some(false))) => {
                self.phase = Phase::Failed;
                push_action(&mut actions, Action::Discard);
                push_action(
                    &mut actions,
                    Action::Send(
                        UnzipedArchiveStatus::Failed(
                            SevenzError::CommandError("7z extract failed".to_string()),
                        ),
                    ),
                );
            },
            (Phase::Extracting, Event::Polled(Some(true))) => {
                self.phase = Phase::Finalizing;
                push_action(&mut actions, Action::Finalize);
            },
            (Phase::Extracting, Event::Polled(None)) => {
                if self.folders >= self.expected.folder as u64 && self.files
                    >= self.expected.file as u64 {
                    push_action(&mut actions, Action::Await);
                } else {
                    push_action(&mut actions, Action::Poll);
                }
            },
            (Phase::Finalizing, Event::Finalized) => {
                self.phase = Phase::Completed;
                push_action(&mut actions, Action::Send(UnzipedArchiveStatus::Completed));
            },
            _ => {},
        }
        actions
    }
}

/// Begins the extraction of an archive into `target_dir`, given by its
/// components: the extraction is set up with the passwords of the settings
/// to fall back on, and asked to start.
pub fn unzip(
    archive: Archive,
    target_dir: &Vec<String>,
    global_password: &Option<String>,
    app_config: &AppConfig,
) -> (r: (Unzip, Vec<Action>))
    ensures
        r.0.wf(),
        (r.0@, action_views(r.1@)) == step(
            fresh(
                archive.path@,
                opt_view(archive.password),
                archive.codepage,
                string_views(target_dir@),
                opt_view(*global_password),
                string_views(app_config.passwords@),
            ),
            EventView::Start,
        ),
{
    let mut state = Unzip::new(archive, target_dir, global_password, app_config.passwords());
    let actions = state.next(Event::Start);
    (state, actions)
}

/// The statuses that a sequence of actions tells, in order.
pub open spec fn told(actions: Seq<ActionView>) -> Seq<StatusView>
    decreases actions.len(),
{
    if actions.len() == 0 {
        Seq::empty()
    } else {
        match actions.last() {
            ActionView::Send(s) => told(actions.drop_last()).push(s),
            _ => told(actions.drop_last()),
        }
    }
}

/// The extraction after a sequence of events, and all the actions that
/// it asked for on the way.
pub open spec fn run(s: UnzipView, events: Seq<EventView>) -> (UnzipView, Seq<ActionView>)
    decreases events.len(),
{
    if events.len() == 0 {
        (s, Seq::empty())
    } else {
        let before = run(s, events.drop_last());
        let last = step(before.0, events.last());
        (last.0, before.1 + last.1)
    }
}

/// What an action changes in the target directory: nothing, but for the
/// move of the staged entries.
pub open spec fn touches_target(a: ActionView) -> bool {
    a is Finalize
}

/// No action of `actions` touches the target directory.
pub open spec fn target_untouched(actions: Seq<ActionView>) -> bool {
    forall|i: int| 0 <= i < actions.len() ==> !touches_target(#[trigger] actions[i])
}

/// What was told is a fitting account of an extraction in `phase`:
/// nothing before it began; then that it is running, followed by what was
/// staged; and at its end, and only then, that it completed or failed.
pub open spec fn well_told(phase: Phase, statuses: Seq<StatusView>) -> bool {
    match phase {
        Phase::Init => statuses.len() == 0,
        Phase::Completed => statuses.len() >= 2 && statuses[0] is Running
            && statuses.last() is Completed && forall|i: int|
            0 < i < statuses.len() - 1 ==> (#[trigger] statuses[i]) is FileStaged,
        Phase::Failed => statuses.len() >= 2 && statuses[0] is Running && statuses.last() is Failed
            && forall|i: int|
            0 < i < statuses.len() - 1 ==> (#[trigger] statuses[i]) is FileStaged,
        _ => statuses.len() >= 1 && statuses[0] is Running && forall|i: int|
            0 < i < statuses.len() ==> (#[trigger] statuses[i]) is FileStaged,
    }
}

proof fn lemma_told_concat(a: Seq<ActionView>, b: Seq<ActionView>)
    ensures
        told(a + b) == told(a) + told(b),
    decreases b.len(),
{
    if b.len() == 0 {
        assert(a + b == a);
    } else {
        assert((a + b).drop_last() == a + b.drop_last());
        lemma_told_concat(a, b.drop_last());
    }
}

proof fn lemma_told_of_step(s: UnzipView, e: EventView)
    ensures
        told(step(s, e).1) == match (s.phase, e) {
            (Phase::Init, EventView::Start) => seq![StatusView::Running],
            (Phase::Probing, EventView::Probed(None)) => if s.passwords.len() > 0 {
                Seq::empty()
            } else {
                seq![StatusView::Failed(ErrorView::NeedPassword(s.path))]
            },
            (Phase::Extracting, EventView::Created { folder, path }) => seq![
                StatusView::FileStaged(path),
            ],
            (Phase::Extracting, EventView::Polled(Some(false))) => seq![
                StatusView::Failed(ErrorView::CommandError("7z extract failed"@)),
            ],
            (Phase::Finalizing, EventView::Finalized) => seq![StatusView::Completed],
            _ => Seq::empty(),
        },
{
    reveal_with_fuel(told, 3);
    let a = step(s, e).1;
    if a.len() == 1 {
        assert(a.drop_last() == Seq::<ActionView>::empty());
    } else if a.len() == 2 {
        assert(a.drop_last().drop_last() == Seq::<ActionView>::empty());
    }
}

/// Nothing is put into the target directory before the entries are moved
/// there: as long as an extraction that began at its start has not come to
/// the move, and also when it has failed, none of the actions it asked for
/// touches the target directory.
pub proof fn lemma_staging_isolation(s: UnzipView, events: Seq<EventView>)
    requires
        s.phase == Phase::Init,
    ensures
        run(s, events).0.phase != Phase::Finalizing && run(s, events).0.phase != Phase::Completed
            ==> target_untouched(run(s, events).1),
    decreases events.len(),
{
    if events.len() > 0 {
        lemma_staging_isolation(s, events.drop_last());
        let before = run(s, events.drop_last());
        let last = step(before.0, events.last());
        if last.0.phase != Phase::Finalizing && last.0.phase != Phase::Completed {
            assert(before.0.phase != Phase::Finalizing && before.0.phase != Phase::Completed);
            assert(target_untouched(last.1));
            assert(target_untouched(before.1 + last.1));
        }
    }
}

/// The move into the target directory is asked for once the tool has
/// ended well, and at no other time: an action touches the target directory
/// only on the step from extracting to finalizing.
pub proof fn lemma_move_only_when_finalizing(s: UnzipView, e: EventView, i: int)
    requires
        0 <= i < step(s, e).1.len(),
        touches_target(step(s, e).1[i]),
    ensures
        s.phase == Phase::Extracting,
        e == EventView::Polled(Some(true)),
        step(s, e).0.phase == Phase::Finalizing,
{
}

/// What an extraction tells, from its start on, is always a fitting
/// account: first that it is running, then what was staged, and that it
/// completed or failed exactly when it has, as the last thing told.
pub proof fn lemma_status_order(s: UnzipView, events: Seq<EventView>)
    requires
        s.phase == Phase::Init,
    ensures
        well_told(run(s, events).0.phase, told(run(s, events).1)),
    decreases events.len(),
{
    if events.len() == 0 {
    } else {
        lemma_status_order(s, events.drop_last());
        let before = run(s, events.drop_last());
        let last = step(before.0, events.last());
        lemma_told_concat(before.1, last.1);
        lemma_told_of_step(before.0, events.last());
        let t0 = told(before.1);
        let t1 = told(last.1);
        let t = t0 + t1;
        assert(told(run(s, events).1) == t);
        if t1.len() == 0 {
            assert(t == t0);
        } else {
            assert(t1.len() == 1);
            assert(t.last() == t1[0]);
            assert forall|i: int| 0 <= i < t0.len() implies #[trigger] t[i] == t0[i] by {}
        }
    }
}

} // verus!
