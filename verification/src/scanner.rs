//! The lifecycle of a cycle: when a scan may start, what stops it, and the
//! figures that tell how far it has come.
use vstd::prelude::*;
use vstd::string::*;

verus! {

/// A point in time: seconds and nanoseconds since the epoch, and the local
/// offset from UTC in seconds.
#[derive(Debug, Clone, Copy, PartialEq, Eq, Structural)]
pub struct Moment {
    pub secs: i64,
    pub nanos: u32,
    pub offset: i32,
}

/// `Local::now` of chrono, taken apart with `timestamp`,
/// `timestamp_subsec_nanos` and `local_minus_utc`. Nothing is claimed of the
/// result: it is the clock's.
#[verifier::external_body]
fn local_now() -> Moment {
    let t = chrono::Local::now();
    Moment {
        secs: t.timestamp(),
        nanos: t.timestamp_subsec_nanos(),
        offset: t.offset().local_minus_utc(),
    }
}

/// Why a cycle failed.
#[derive(Debug)]
pub enum ScanError {
    /// A directory could not be read: its path, and the cause.
    Io(String, String),
    /// The metadata store refused a statement.
    Sqlx(String),
    /// The thumbnail store refused a change.
    Heed(String),
}

/// The text of an error: the name of its kind, and in brackets what it
/// holds.
pub open spec fn error_text(e: ScanError) -> Seq<char> {
    match e {
        ScanError::Io(path, cause) => seq!['I', 'o', '(', '"'] + path@ + seq!['"', ',', ' ']
            + cause@ + seq![')'],
        ScanError::Sqlx(cause) => seq!['S', 'q', 'l', 'x', '('] + cause@ + seq![')'],
        ScanError::Heed(cause) => seq!['H', 'e', 'e', 'd', '('] + cause@ + seq![')'],
    }
}

impl ScanError {
    /// The text of the error.
    pub fn message(&self) -> (r: String)
        ensures
            r@ == error_text(*self),
    {
        proof {
            reveal_strlit("Io(\"");
            reveal_strlit("\", ");
            reveal_strlit(")");
            reveal_strlit("Sqlx(");
            reveal_strlit("Heed(");
        }
        assert("Io(\""@ =~= seq!['I', 'o', '(', '"']);
        assert("\", "@ =~= seq!['"', ',', ' ']);
        assert(")"@ =~= seq![')']);
        assert("Sqlx("@ =~= seq!['S', 'q', 'l', 'x', '(']);
        assert("Heed("@ =~= seq!['H', 'e', 'e', 'd', '(']);
        match self {
            ScanError::Io(path, cause) => {
                let mut s = String::from_str("Io(\"");
                s.append(path.as_str());
                s.append("\", ");
                s.append(cause.as_str());
                s.append(")");
                s
            },
            ScanError::Sqlx(cause) => {
                let mut s = String::from_str("Sqlx(");
                s.append(cause.as_str());
                s.append(")");
                s
            },
            ScanError::Heed(cause) => {
                let mut s = String::from_str("Heed(");
                s.append(cause.as_str());
                s.append(")");
                s
            },
        }
    }
}

/// Where the lifecycle stands.
#[derive(Debug)]
pub enum State {
    Idle,
    Scanning,
    Indexing,
    Error(String),
}

impl View for State {
    type V = StateView;

    open spec fn view(&self) -> StateView {
        match *self {
            State::Idle => StateView::Idle,
            State::Scanning => StateView::Scanning,
            State::Indexing => StateView::Indexing,
            State::Error(m) => StateView::Error(m@),
        }
    }
}

/// A [`State`] as a mathematical value.
pub enum StateView {
    Idle,
    Scanning,
    Indexing,
    Error(Seq<char>),
}

impl Clone for State {
    fn clone(&self) -> (r: Self)
        ensures
            r@ == self@,
    {
        match self {
            State::Idle => State::Idle,
            State::Scanning => State::Scanning,
            State::Indexing => State::Indexing,
            State::Error(m) => State::Error(m.clone()),
        }
    }
}

/// How far the current cycle has come, and when the last one ran.
#[derive(Debug, Clone, Copy)]
pub struct Stats {
    pub last_scan_start: Option<Moment>,
    pub last_scan_end: Option<Moment>,
    pub scan_folders_count: usize,
    pub scan_files_count: usize,
    pub scan_folders_total: usize,
    pub scan_files_total: usize,
}

impl Stats {
    /// The figures before any cycle: no times, and counters at 0.
    pub open spec fn initial() -> Stats {
        Stats {
            last_scan_start: None,
            last_scan_end: None,
            scan_folders_count: 0,
            scan_files_count: 0,
            scan_folders_total: 0,
            scan_files_total: 0,
        }
    }

    /// The figures before any cycle.
    pub fn new() -> (r: Self)
        ensures
            r == Stats::initial(),
    {
        Stats {
            last_scan_start: None,
            last_scan_end: None,
            scan_folders_count: 0,
            scan_files_count: 0,
            scan_folders_total: 0,
            scan_files_total: 0,
        }
    }

    /// Sets the four counters to 0 and keeps the two times.
    pub fn reset_counters(&mut self)
        ensures
            *final(self) == (Stats {
                scan_folders_count: 0,
                scan_files_count: 0,
                scan_folders_total: 0,
                scan_files_total: 0,
                ..*old(self)
            }),
    {
        self.scan_folders_count = 0;
        self.scan_files_count = 0;
        self.scan_folders_total = 0;
        self.scan_files_total = 0;
    }

    /// Sets the two totals of the scan to 0 and keeps the rest.
    pub fn reset_totals(&mut self)
        ensures
            *final(self) == (Stats { scan_folders_total: 0, scan_files_total: 0, ..*old(self) }),
    {
        self.scan_folders_total = 0;
        self.scan_files_total = 0;
    }

    /// Counts `n` more files that a scan has found.
    pub fn add_files_total(&mut self, n: usize)
        requires
            old(self).scan_files_total + n <= usize::MAX,
        ensures
            *final(self) == (Stats {
                scan_files_total: (old(self).scan_files_total + n) as usize,
                ..*old(self)
            }),
    {
        self.scan_files_total = self.scan_files_total + n;
    }

    /// Counts `n` more folders that a scan has kept.
    pub fn add_folders_total(&mut self, n: usize)
        requires
            old(self).scan_folders_total + n <= usize::MAX,
        ensures
            *final(self) == (Stats {
                scan_folders_total: (old(self).scan_folders_total + n) as usize,
                ..*old(self)
            }),
    {
        self.scan_folders_total = self.scan_folders_total + n;
    }

    /// Counts `n` more folders that the indexing is done with.
    pub fn add_folders_done(&mut self, n: usize)
        requires
            old(self).scan_folders_count + n <= usize::MAX,
        ensures
            *final(self) == (Stats {
                scan_folders_count: (old(self).scan_folders_count + n) as usize,
                ..*old(self)
            }),
    {
        self.scan_folders_count = self.scan_folders_count + n;
    }

    /// Counts `n` more files that the indexing is done with.
    pub fn add_files_done(&mut self, n: usize)
        requires
            old(self).scan_files_count + n <= usize::MAX,
        ensures
            *final(self) == (Stats {
                scan_files_count: (old(self).scan_files_count + n) as usize,
                ..*old(self)
            }),
    {
        self.scan_files_count = self.scan_files_count + n;
    }
}

/// What a client may ask of the lifecycle.
#[derive(Debug, Clone, Copy, PartialEq, Eq, Structural)]
pub enum Request {
    Run,
    Stop,
}

/// The answer to a [`Request`]: `Idle` to a stop when nothing runs,
/// `NotIdle` to a run when something does, `OK` otherwise.
#[derive(Debug, Clone, Copy, PartialEq, Eq, Structural)]
pub enum Reply {
    Idle,
    NotIdle,
    OK,
}

/// What the caller has to do after a transition.
#[derive(Debug, Clone, Copy, PartialEq, Eq, Structural)]
pub enum Action {
    /// Nothing.
    Nothing,
    /// Start the scan of the root directory.
    StartScan,
    /// Start the workers and the writer, then the walk over the snapshot.
    StartIndexing,
    /// Cancel the running scan at once.
    CancelScan,
    /// Cancel the walk, then stop the workers and the writer.
    StopIndexing,
}

/// Whether a cycle is under way.
pub open spec fn busy(s: StateView) -> bool {
    s is Scanning || s is Indexing
}

/// The answer to `r` in the state `s`.
pub open spec fn reply_to(s: StateView, r: Request) -> Reply {
    match r {
        Request::Run => if busy(s) {
            Reply::NotIdle
        } else {
            Reply::OK
        },
        Request::Stop => if busy(s) {
            Reply::OK
        } else {
            Reply::Idle
        },
    }
}

/// The state that `r` leads to from `s`: a run starts a scan unless a cycle
/// is under way, a stop ends the cycle that is under way, and nothing else
/// changes the state.
pub open spec fn state_after(s: StateView, r: Request) -> StateView {
    match r {
        Request::Run => if busy(s) {
            s
        } else {
            StateView::Scanning
        },
        Request::Stop => if busy(s) {
            StateView::Idle
        } else {
            s
        },
    }
}

/// What the caller has to do when `r` arrives in the state `s`.
pub open spec fn action_for(s: StateView, r: Request) -> Action {
    match r {
        Request::Run => if busy(s) {
            Action::Nothing
        } else {
            Action::StartScan
        },
        Request::Stop => match s {
            StateView::Scanning => Action::CancelScan,
            StateView::Indexing => Action::StopIndexing,
            _ => Action::Nothing,
        },
    }
}

/// The figures after `r` arrived at the time `now` in the state `s`: an
/// accepted run notes its start and clears the counters.
pub open spec fn stats_after(stats: Stats, s: StateView, r: Request, now: Moment) -> Stats {
    if r == Request::Run && !busy(s) {
        Stats {
            last_scan_start: Some(now),
            last_scan_end: stats.last_scan_end,
            scan_folders_count: 0,
            scan_files_count: 0,
            scan_folders_total: 0,
            scan_files_total: 0,
        }
    } else {
        stats
    }
}

/// The figures of a cycle that ended at the time `now`.
pub open spec fn ended_at(stats: Stats, now: Moment) -> Stats {
    Stats { last_scan_end: Some(now), ..stats }
}

/// The state after a scan ended with `outcome`.
pub open spec fn after_scan(s: StateView, outcome: Result<(), ScanError>) -> StateView {
    if s is Scanning {
        match outcome {
            Ok(_) => StateView::Indexing,
            Err(e) => StateView::Error(
                failure_text(seq!['s', 'c', 'a', 'n', '_', 'd', 'i', 'r'], error_text(e)),
            ),
        }
    } else {
        s
    }
}

/// What the caller has to do after a scan ended with `outcome`.
pub open spec fn after_scan_action(s: StateView, outcome: Result<(), ScanError>) -> Action {
    if s is Scanning && outcome is Ok {
        Action::StartIndexing
    } else {
        Action::Nothing
    }
}

/// The state after an indexing ended with `outcome`.
pub open spec fn after_index(s: StateView, outcome: Result<(), ScanError>) -> StateView {
    if s is Indexing {
        match outcome {
            Ok(_) => StateView::Idle,
            Err(e) => StateView::Error(
                failure_text(
                    seq!['i', 'n', 'd', 'e', 'x', 'e', 'r', ' ', 'u', 'p', 'd', 'a', 't', 'e'],
                    error_text(e),
                ),
            ),
        }
    } else {
        s
    }
}

/// The text `context: cause`.
pub open spec fn failure_text(context: Seq<char>, cause: Seq<char>) -> Seq<char> {
    context + seq![':', ' '] + cause
}

/// The lifecycle of the indexing cycles. The figures of the cycle are kept
/// apart from it, so that they can be read and counted up while a
/// transition is under way.
pub struct Scanner {
    state: State,
    n_threads: usize,
}

impl Scanner {
    /// The state as a mathematical value.
    pub closed spec fn state_view(&self) -> StateView {
        self.state@
    }

    /// The number of thumbnail workers.
    pub closed spec fn threads(&self) -> usize {
        self.n_threads
    }

    /// An idle lifecycle with `n_threads` thumbnail workers.
    pub fn new(n_threads: usize) -> (r: Self)
        ensures
            r.state_view() is Idle,
            r.threads() == n_threads,
    {
        Scanner { state: State::Idle, n_threads }
    }

    /// The number of thumbnail workers.
    pub fn n_threads(&self) -> (r: usize)
        ensures
            r == self.threads(),
    {
        self.n_threads
    }

    /// The state.
    pub fn state(&self) -> (r: State)
        ensures
            r@ == self.state_view(),
    {
        self.state.clone()
    }

    /// Handles `r`, which arrived at the time `now`.
    pub fn request_at(&mut self, stats: &mut Stats, r: Request, now: Moment) -> (out: (
        Reply,
        Action,
    ))
        ensures
            out.0 == reply_to(old(self).state_view(), r),
            out.1 == action_for(old(self).state_view(), r),
            final(self).state_view() == state_after(old(self).state_view(), r),
            *final(stats) == stats_after(*old(stats), old(self).state_view(), r, now),
            final(self).threads() == old(self).threads(),
    {
        match r {
            Request::Run => {
                match self.state {
                    State::Idle | State::Error(_) => {
                        stats.last_scan_start = Some(now);
                        stats.reset_counters();
                        self.state = State::Scanning;
                        (Reply::OK, Action::StartScan)
                    },
                    _ => (Reply::NotIdle, Action::Nothing),
                }
            },
            Request::Stop => {
                match self.state {
                    State::Scanning => {
                        self.state = State::Idle;
                        (Reply::OK, Action::CancelScan)
                    },
                    State::Indexing => {
                        self.state = State::Idle;
                        (Reply::OK, Action::StopIndexing)
                    },
                    _ => (Reply::Idle, Action::Nothing),
                }
            },
        }
    }

    /// Handles `r`, which arrives now.
    pub fn request(&mut self, stats: &mut Stats, r: Request) -> (out: (Reply, Action))
        ensures
            out.0 == reply_to(old(self).state_view(), r),
            out.1 == action_for(old(self).state_view(), r),
            final(self).state_view() == state_after(old(self).state_view(), r),
            exists|now: Moment|
                *final(stats) == stats_after(*old(stats), old(self).state_view(), r, now),
            final(self).threads() == old(self).threads(),
    {
        let now = local_now();
        self.request_at(stats, r, now)
    }

    /// Notes how the scan ended. After a scan that succeeded the indexing
    /// begins; one that failed leaves the error `scan_dir: ` and its cause.
    /// Outside a scan nothing changes.
    pub fn scan_finished(&mut self, outcome: Result<(), ScanError>) -> (action: Action)
        ensures
            final(self).threads() == old(self).threads(),
            action == after_scan_action(old(self).state_view(), outcome),
            final(self).state_view() == after_scan(old(self).state_view(), outcome),
    {
        match self.state {
            State::Scanning => match outcome {
                Ok(_) => {
                    self.state = State::Indexing;
                    Action::StartIndexing
                },
                Err(e) => {
                    proof {
                        reveal_strlit("scan_dir");
                    }
                    assert("scan_dir"@ =~= seq!['s', 'c', 'a', 'n', '_', 'd', 'i', 'r']);
                    self.state = State::Error(failure("scan_dir", &e));
                    Action::Nothing
                },
            },
            _ => Action::Nothing,
        }
    }

    /// Notes, at the time `now`, how the indexing ended. After one that
    /// succeeded the lifecycle is idle and the end of the cycle is noted; one
    /// that failed leaves the error `indexer update: ` and its cause. Outside
    /// an indexing nothing changes.
    pub fn index_finished_at(
        &mut self,
        stats: &mut Stats,
        outcome: Result<(), ScanError>,
        now: Moment,
    )
        ensures
            final(self).threads() == old(self).threads(),
            final(self).state_view() == after_index(old(self).state_view(), outcome),
            *final(stats) == (if old(self).state_view() is Indexing && outcome is Ok {
                ended_at(*old(stats), now)
            } else {
                *old(stats)
            }),
    {
        match self.state {
            State::Indexing => match outcome {
                Ok(_) => {
                    stats.last_scan_end = Some(now);
                    self.state = State::Idle;
                },
                Err(e) => {
                    proof {
                        reveal_strlit("indexer update");
                    }
                    assert("indexer update"@ =~= seq![
                        'i',
                        'n',
                        'd',
                        'e',
                        'x',
                        'e',
                        'r',
                        ' ',
                        'u',
                        'p',
                        'd',
                        'a',
                        't',
                        'e',
                    ]);
                    self.state = State::Error(failure("indexer update", &e));
                },
            },
            _ => {},
        }
    }

    /// Notes how the indexing ended just now.
    pub fn index_finished(&mut self, stats: &mut Stats, outcome: Result<(), ScanError>)
        ensures
            final(self).threads() == old(self).threads(),
            final(self).state_view() == after_index(old(self).state_view(), outcome),
            old(self).state_view() is Indexing && outcome is Ok ==> exists|now: Moment|
                *final(stats) == ended_at(*old(stats), now),
            !(old(self).state_view() is Indexing && outcome is Ok) ==> *final(stats) == *old(
                stats,
            ),
    {
        let now = local_now();
        self.index_finished_at(stats, outcome, now)
    }
}

/// A run is refused while a cycle is under way and changes nothing then; a
/// stop while none is under way is answered with `Idle` and changes
/// nothing; a stop of a cycle that is under way is accepted, and the state
/// read after it is `Idle`. A scan is started only from a state in which no
/// cycle is under way.
pub proof fn lemma_one_cycle_at_a_time(s: StateView)
    ensures
        busy(s) ==> reply_to(s, Request::Run) == Reply::NotIdle && state_after(s, Request::Run)
            == s && action_for(s, Request::Run) == Action::Nothing,
        !busy(s) ==> reply_to(s, Request::Stop) == Reply::Idle && state_after(s, Request::Stop)
            == s && action_for(s, Request::Stop) == Action::Nothing,
        busy(s) ==> reply_to(s, Request::Stop) == Reply::OK && state_after(s, Request::Stop)
            is Idle,
        !busy(s) ==> reply_to(s, Request::Run) == Reply::OK && state_after(s, Request::Run)
            is Scanning,
        forall|r: Request| action_for(s, r) == Action::StartScan ==> !busy(s),
{
}

/// The text `context: ` followed by the text of `e`.
fn failure(context: &str, e: &ScanError) -> (r: String)
    ensures
        r@ == failure_text(context@, error_text(*e)),
{
    proof {
        reveal_strlit(": ");
    }
    assert(": "@ =~= seq![':', ' ']);
    let mut s = String::from_str(context);
    s.append(": ");
    s.append(e.message().as_str());
    s
}

} // verus!
