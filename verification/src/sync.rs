//! The decisions behind GitHub-backed sync: what a `git` run amounts to, which
//! state follows, and when a background run may start. The runs themselves happen
//! elsewhere.

use vstd::prelude::*;
use vstd::string::StrSliceExecFns;
use vstd::utf8::*;

use crate::numbers;
use crate::text;
use crate::unicode;
use crate::words;

verus! {

// ---------------------------------------------------------------------------
// States and outcomes
// ---------------------------------------------------------------------------

/// Visible state used by the status bar and the event loop.
#[derive(Debug)]
pub enum SyncState {
    /// File is not inside a git working tree, or `[sync] enabled = false`.
    Disabled,
    /// Up to date with remote.
    Idle,
    /// Pull in flight (background).
    Pulling,
    /// Commit + push in flight (background).
    Pushing,
    /// Local has N unpushed commits.
    AheadBy(usize),
    /// The last network operation failed (DNS, connection refused, etc).
    Offline,
    /// The working tree has unresolved merge conflict markers.
    Conflict,
    /// Some other failure (auth, etc.). Message displayed in status bar.
    Error(String),
}

#[verifier::ext_equal]
pub enum StateView {
    Disabled,
    Idle,
    Pulling,
    Pushing,
    AheadBy(int),
    Offline,
    Conflict,
    Error(Seq<char>),
}

impl View for SyncState {
    type V = StateView;

    open spec fn view(&self) -> StateView {
        match *self {
            SyncState::Disabled => StateView::Disabled,
            SyncState::Idle => StateView::Idle,
            SyncState::Pulling => StateView::Pulling,
            SyncState::Pushing => StateView::Pushing,
            SyncState::AheadBy(n) => StateView::AheadBy(n as int),
            SyncState::Offline => StateView::Offline,
            SyncState::Conflict => StateView::Conflict,
            SyncState::Error(e) => StateView::Error(e@),
        }
    }
}

#[derive(Debug)]
pub enum PullOutcome {
    UpToDate,
    FastForwarded,
    Conflicted,
    Offline,
    Error(String),
}

#[verifier::ext_equal]
pub enum PullView {
    UpToDate,
    FastForwarded,
    Conflicted,
    Offline,
    Error(Seq<char>),
}

impl View for PullOutcome {
    type V = PullView;

    open spec fn view(&self) -> PullView {
        match *self {
            PullOutcome::UpToDate => PullView::UpToDate,
            PullOutcome::FastForwarded => PullView::FastForwarded,
            PullOutcome::Conflicted => PullView::Conflicted,
            PullOutcome::Offline => PullView::Offline,
            PullOutcome::Error(e) => PullView::Error(e@),
        }
    }
}

#[derive(Debug)]
pub enum PushOutcome {
    Pushed,
    NothingToPush,
    Conflicted,
    Offline,
    Error(String),
}

#[verifier::ext_equal]
pub enum PushView {
    Pushed,
    NothingToPush,
    Conflicted,
    Offline,
    Error(Seq<char>),
}

impl View for PushOutcome {
    type V = PushView;

    open spec fn view(&self) -> PushView {
        match *self {
            PushOutcome::Pushed => PushView::Pushed,
            PushOutcome::NothingToPush => PushView::NothingToPush,
            PushOutcome::Conflicted => PushView::Conflicted,
            PushOutcome::Offline => PushView::Offline,
            PushOutcome::Error(e) => PushView::Error(e@),
        }
    }
}

#[derive(Debug)]
pub enum FetchOutcome {
    UpToDate,
    BehindBy(usize),
    Offline,
    Error(String),
}

/// Why a run gave no output.
#[derive(Debug)]
pub enum TimeoutFallback {
    Timeout,
    SpawnFailed(String),
    IoError(String),
}

pub open spec fn fallback_pull(t: TimeoutFallback) -> PullView {
    match t {
        TimeoutFallback::Timeout => PullView::Offline,
        TimeoutFallback::SpawnFailed(e) => PullView::Error("spawn git: "@ + e@),
        TimeoutFallback::IoError(e) => PullView::Error(e@),
    }
}

pub open spec fn fallback_push(t: TimeoutFallback) -> PushView {
    match t {
        TimeoutFallback::Timeout => PushView::Offline,
        TimeoutFallback::SpawnFailed(e) => PushView::Error("spawn git: "@ + e@),
        TimeoutFallback::IoError(e) => PushView::Error(e@),
    }
}

fn spawn_error(e: String) -> (r: String)
    ensures
        r@ == "spawn git: "@ + e@,
{
    let mut out = String::from_str("spawn git: ");
    out.append(e.as_str());
    out
}

impl From<TimeoutFallback> for PullOutcome {
    fn from(t: TimeoutFallback) -> (r: Self)
        ensures
            r@ == fallback_pull(t),
    {
        match t {
            TimeoutFallback::Timeout => PullOutcome::Offline,
            TimeoutFallback::SpawnFailed(e) => PullOutcome::Error(spawn_error(e)),
            TimeoutFallback::IoError(e) => PullOutcome::Error(e),
        }
    }
}

impl vstd::std_specs::convert::FromSpecImpl<TimeoutFallback> for PullOutcome {
    open spec fn obeys_from_spec() -> bool {
        false
    }

    open spec fn from_spec(t: TimeoutFallback) -> Self {
        arbitrary()
    }
}

impl From<TimeoutFallback> for PushOutcome {
    fn from(t: TimeoutFallback) -> (r: Self)
        ensures
            r@ == fallback_push(t),
    {
        match t {
            TimeoutFallback::Timeout => PushOutcome::Offline,
            TimeoutFallback::SpawnFailed(e) => PushOutcome::Error(spawn_error(e)),
            TimeoutFallback::IoError(e) => PushOutcome::Error(e),
        }
    }
}

impl vstd::std_specs::convert::FromSpecImpl<TimeoutFallback> for PushOutcome {
    open spec fn obeys_from_spec() -> bool {
        false
    }

    open spec fn from_spec(t: TimeoutFallback) -> Self {
        arbitrary()
    }
}

impl From<TimeoutFallback> for bool {
    /// Any run that gave no output did not succeed.
    fn from(_t: TimeoutFallback) -> (r: bool)
        ensures
            !r,
    {
        false
    }
}

impl vstd::std_specs::convert::FromSpecImpl<TimeoutFallback> for bool {
    open spec fn obeys_from_spec() -> bool {
        true
    }

    open spec fn from_spec(t: TimeoutFallback) -> bool {
        false
    }
}

// ---------------------------------------------------------------------------
// Reading what git says
// ---------------------------------------------------------------------------

/// `pat` occurs in the text.
pub open spec fn says(s: Seq<char>, pat: Seq<char>) -> bool {
    text::contains_seq(encode_utf8(s), encode_utf8(pat))
}

/// Both outputs of a run.
pub open spec fn both(stdout: Seq<char>, stderr: Seq<char>) -> Seq<char> {
    stdout + "\n"@ + stderr
}

/// The text tells of a network failure.
pub open spec fn offline_text(s: Seq<char>) -> bool {
    let t = unicode::lower_text(s);
    ||| says(t, "could not resolve host"@)
    ||| says(t, "connection timed out"@)
    ||| says(t, "connection refused"@)
    ||| says(t, "could not read from remote repository"@)
    ||| says(t, "unable to access"@)
    ||| says(t, "network is unreachable"@)
}

pub fn is_offline_error(s: &str) -> (r: bool)
    ensures
        r == offline_text(s@),
{
    let t = unicode::to_lower_text(s);
    let t = t.as_str();
    words::contains(t, "could not resolve host") || words::contains(t, "connection timed out")
        || words::contains(t, "connection refused") || words::contains(
        t,
        "could not read from remote repository",
    ) || words::contains(t, "unable to access") || words::contains(t, "network is unreachable")
}

/// What a finished `git pull` amounts to.
pub open spec fn pull_result(stdout: Seq<char>, stderr: Seq<char>, success: bool) -> PullView {
    let all = both(stdout, stderr);
    if says(all, "CONFLICT"@) || says(all, "Merge conflict"@) {
        PullView::Conflicted
    } else if success {
        if says(all, "Already up to date"@) || says(all, "up-to-date"@) {
            PullView::UpToDate
        } else {
            PullView::FastForwarded
        }
    } else if offline_text(all) {
        PullView::Offline
    } else {
        PullView::Error(words::trim(stderr))
    }
}

fn combine(stdout: &str, stderr: &str) -> (r: String)
    ensures
        r@ == both(stdout@, stderr@),
{
    let mut out = stdout.to_owned();
    out.append("\n");
    out.append(stderr);
    out
}

pub fn classify_pull_output(stdout: &str, stderr: &str, success: bool) -> (r: PullOutcome)
    ensures
        r@ == pull_result(stdout@, stderr@, success),
{
    let combined = combine(stdout, stderr);
    let all = combined.as_str();
    if words::contains(all, "CONFLICT") || words::contains(all, "Merge conflict") {
        return PullOutcome::Conflicted;
    }
    if success {
        if words::contains(all, "Already up to date") || words::contains(all, "up-to-date") {
            return PullOutcome::UpToDate;
        }
        return PullOutcome::FastForwarded;
    }
    if is_offline_error(all) {
        PullOutcome::Offline
    } else {
        PullOutcome::Error(words::trimmed(stderr).to_owned())
    }
}

/// What a finished `git push` amounts to.
pub open spec fn push_result(stdout: Seq<char>, stderr: Seq<char>, success: bool) -> PushView {
    let all = both(stdout, stderr);
    if success {
        if says(all, "Everything up-to-date"@) {
            PushView::NothingToPush
        } else {
            PushView::Pushed
        }
    } else if says(all, "rejected"@) && says(all, "non-fast-forward"@) {
        PushView::Conflicted
    } else if offline_text(all) {
        PushView::Offline
    } else {
        PushView::Error(words::trim(stderr))
    }
}

pub fn classify_push_output(stdout: &str, stderr: &str, success: bool) -> (r: PushOutcome)
    ensures
        r@ == push_result(stdout@, stderr@, success),
{
    let combined = combine(stdout, stderr);
    let all = combined.as_str();
    if success {
        if words::contains(all, "Everything up-to-date") {
            return PushOutcome::NothingToPush;
        }
        return PushOutcome::Pushed;
    }
    if words::contains(all, "rejected") && words::contains(all, "non-fast-forward") {
        return PushOutcome::Conflicted;
    }
    if is_offline_error(all) {
        PushOutcome::Offline
    } else {
        PushOutcome::Error(words::trimmed(stderr).to_owned())
    }
}

/// The error of a failed run: what it wrote, or else a description of the run.
pub fn git_failure(stderr: &str, described: &str) -> (r: String)
    ensures
        r@ == if words::trim(stderr@).len() > 0 {
            words::trim(stderr@)
        } else {
            described@
        },
{
    let t = words::trimmed(stderr);
    if t.is_empty() {
        described.to_owned()
    } else {
        t.to_owned()
    }
}

/// `git remote` listed at least one remote.
pub fn lists_remote(stdout: &str, success: bool) -> (r: bool)
    ensures
        r == (success && words::trim(stdout@).len() > 0),
{
    success && !words::trimmed(stdout).is_empty()
}

/// The number that `git rev-list --count` printed; 0 where it failed or printed
/// something else.
pub open spec fn count_printed(stdout: Seq<char>, success: bool) -> int {
    match numbers::within(numbers::unsigned(words::trim(stdout)), 0, usize::MAX as int) {
        Some(n) => if success {
            n
        } else {
            0
        },
        None => 0,
    }
}

/// Commits that `git rev-list --count` counted.
pub fn read_count(stdout: &str, success: bool) -> (r: usize)
    ensures
        r == count_printed(stdout@, success),
{
    if !success {
        return 0;
    }
    match numbers::parse_usize(words::trimmed(stdout)) {
        Some(n) => n,
        None => 0,
    }
}

/// What a fetch amounts to, given the commits that the branch is behind.
pub fn fetch_result(fetched: bool, behind: usize) -> (r: FetchOutcome)
    ensures
        r == if !fetched {
            FetchOutcome::Offline
        } else if behind == 0 {
            FetchOutcome::UpToDate
        } else {
            FetchOutcome::BehindBy(behind)
        },
{
    if !fetched {
        FetchOutcome::Offline
    } else if behind == 0 {
        FetchOutcome::UpToDate
    } else {
        FetchOutcome::BehindBy(behind)
    }
}

// ---------------------------------------------------------------------------
// Conflict markers
// ---------------------------------------------------------------------------

pub open spec fn marker_line(l: Seq<char>) -> bool {
    text::begins_with(l, "<<<<<<<"@) || text::begins_with(l, "======="@) || text::begins_with(
        l,
        ">>>>>>>"@,
    )
}

/// A line of the text begins with a merge conflict marker.
pub open spec fn has_markers(s: Seq<char>) -> bool {
    exists|i: int|
        0 <= i < words::pieces(s, '\n').len() && marker_line(#[trigger] words::pieces(s, '\n')[i])
}

/// True if `content` has a Git merge conflict marker at the start of any line.
pub fn has_conflict_markers(content: &str) -> (r: bool)
    ensures
        r == has_markers(content@),
{
    let lines = words::split_on(content, '\n');
    let mut i: usize = 0;
    while i < lines.len()
        invariant
            i <= lines.len(),
            words::texts(lines@) == words::pieces(content@, '\n'),
            forall|k: int| 0 <= k < i ==> !marker_line(#[trigger] words::texts(lines@)[k]),
        decreases lines.len() - i,
    {
        proof {
            assert(words::texts(lines@)[i as int] == lines@[i as int]@);
        }
        let l = lines[i].as_str();
        if text::starts_with(l, "<<<<<<<") || text::starts_with(l, "=======") || text::starts_with(
            l,
            ">>>>>>>",
        ) {
            return true;
        }
        i += 1;
    }
    false
}

// ---------------------------------------------------------------------------
// State transitions
// ---------------------------------------------------------------------------

/// The state after a push. Where the remote moved on, at least one commit waits.
pub open spec fn pushed_state(o: PushView, ahead: int) -> StateView {
    match o {
        PushView::Pushed => StateView::Idle,
        PushView::NothingToPush => StateView::Idle,
        PushView::Conflicted => StateView::AheadBy(
            if ahead > 1 {
                ahead
            } else {
                1
            },
        ),
        PushView::Offline => StateView::Offline,
        PushView::Error(e) => StateView::Error(e),
    }
}

pub fn state_after_push(o: PushOutcome, ahead: usize) -> (r: SyncState)
    ensures
        r@ == pushed_state(o@, ahead as int),
{
    match o {
        PushOutcome::Pushed => SyncState::Idle,
        PushOutcome::NothingToPush => SyncState::Idle,
        PushOutcome::Conflicted => SyncState::AheadBy(
            if ahead > 1 {
                ahead
            } else {
                1
            },
        ),
        PushOutcome::Offline => SyncState::Offline,
        PushOutcome::Error(e) => SyncState::Error(e),
    }
}

/// The state after a background pull; `markers` tells whether the text in the
/// editor has conflict markers by then.
pub open spec fn pulled_state(o: PullView, markers: bool) -> StateView {
    match o {
        PullView::UpToDate => StateView::Idle,
        PullView::FastForwarded => if markers {
            StateView::Conflict
        } else {
            StateView::Idle
        },
        PullView::Conflicted => StateView::Conflict,
        PullView::Offline => StateView::Offline,
        PullView::Error(e) => StateView::Error(e),
    }
}

pub fn state_after_pull(o: PullOutcome, markers: bool) -> (r: SyncState)
    ensures
        r@ == pulled_state(o@, markers),
{
    match o {
        PullOutcome::UpToDate => SyncState::Idle,
        PullOutcome::FastForwarded => if markers {
            SyncState::Conflict
        } else {
            SyncState::Idle
        },
        PullOutcome::Conflicted => SyncState::Conflict,
        PullOutcome::Offline => SyncState::Offline,
        PullOutcome::Error(e) => SyncState::Error(e),
    }
}

/// The state with which a file is opened: `pull` is what a pull on open gave,
/// where one was made; conflict markers in the text are a conflict whatever git
/// said.
pub open spec fn opened_state(remote: bool, pull: Option<PullView>, markers: bool) -> StateView {
    if markers {
        StateView::Conflict
    } else {
        match pull {
            Some(o) => pulled_state(o, false),
            None => if remote {
                StateView::Idle
            } else {
                StateView::Disabled
            },
        }
    }
}

pub fn state_on_open(remote: bool, pull: Option<PullOutcome>, markers: bool) -> (r: SyncState)
    ensures
        r@ == opened_state(
            remote,
            match pull {
                Some(o) => Some(o@),
                None => None,
            },
            markers,
        ),
{
    if markers {
        return SyncState::Conflict;
    }
    match pull {
        Some(o) => state_after_pull(o, false),
        None => if remote {
            SyncState::Idle
        } else {
            SyncState::Disabled
        },
    }
}

impl SyncState {
    pub fn is_conflict(&self) -> (r: bool)
        ensures
            r == (self@ is Conflict),
    {
        match self {
            SyncState::Conflict => true,
            _ => false,
        }
    }

    pub fn is_idle(&self) -> (r: bool)
        ensures
            r == (self@ is Idle),
    {
        match self {
            SyncState::Idle => true,
            _ => false,
        }
    }

    /// A background pull may start on its own in this state.
    pub fn is_resting(&self) -> (r: bool)
        ensures
            r == (self@ is Idle || self@ is Offline || self@ is AheadBy),
    {
        match self {
            SyncState::Idle => true,
            SyncState::Offline => true,
            SyncState::AheadBy(_) => true,
            _ => false,
        }
    }
}

/// A background run may start: none is in flight, there is a repository, and no
/// conflict waits.
pub fn may_start(busy: bool, has_repo: bool, state: &SyncState) -> (r: bool)
    ensures
        r == (!busy && has_repo && !(state@ is Conflict)),
{
    !busy && has_repo && !state.is_conflict()
}

/// The idle timer starts a pull: an interval is set, there is a repository, sync
/// rests, and the interval has passed.
pub fn idle_pull_due(interval: u64, has_repo: bool, state: &SyncState, elapsed: u64) -> (r: bool)
    ensures
        r == (interval > 0 && has_repo && (state@ is Idle || state@ is Offline
            || state@ is AheadBy) && elapsed >= interval),
{
    interval > 0 && has_repo && state.is_resting() && elapsed >= interval
}

/// The side of a rebase conflict to check out. In a `git pull --rebase`, "ours" is
/// the remote (the branch that is rebased onto) and "theirs" the local commits.
pub fn conflict_side(keep_local: bool) -> (r: &'static str)
    ensures
        r@ == if keep_local {
            "--theirs"@
        } else {
            "--ours"@
        },
{
    if keep_local {
        "--theirs"
    } else {
        "--ours"
    }
}

// ---------------------------------------------------------------------------
// Repository
// ---------------------------------------------------------------------------

/// A directory above the notes file, and whether it holds a `.git`.
pub struct Ancestor {
    pub path: String,
    pub has_git: bool,
}

/// The first directory from `i` on that holds a `.git`.
pub open spec fn repo_from(chain: Seq<Ancestor>, i: int) -> Option<Seq<char>>
    decreases chain.len() - i,
{
    if i < 0 || i >= chain.len() {
        None
    } else if chain[i].has_git {
        Some(chain[i].path@)
    } else {
        repo_from(chain, i + 1)
    }
}

/// The repository of a file: the nearest directory above it, `chain` going upward,
/// that holds a `.git`.
pub fn detect_repo(chain: &Vec<Ancestor>) -> (r: Option<String>)
    ensures
        match repo_from(chain@, 0) {
            Some(p) => r is Some && r->Some_0@ == p,
            None => r is None,
        },
{
    let mut i: usize = 0;
    while i < chain.len()
        invariant
            i <= chain.len(),
            repo_from(chain@, i as int) == repo_from(chain@, 0),
        decreases chain.len() - i,
    {
        if chain[i].has_git {
            return Some(chain[i].path.as_str().to_owned());
        }
        i += 1;
    }
    None
}

// ---------------------------------------------------------------------------
// Commit and push, step by step
// ---------------------------------------------------------------------------

/// The message of a commit made at `stamp`.
pub fn commit_message(stamp: &str) -> (r: String)
    ensures
        r@ == "notes: "@ + stamp@,
{
    let mut out = String::from_str("notes: ");
    out.append(stamp);
    out
}

/// The next `git` run of a commit and push.
pub enum PushStep {
    /// `git add -- <file>`
    Add,
    /// `git diff --cached --quiet`, which succeeds if nothing is staged
    CheckStaged,
    /// `git commit -m <message>`
    Commit,
    /// `git push`
    Push,
    /// No further run: this is the outcome
    Done(PushOutcome),
}

/// What a run of a step gave: whether it succeeded, or an error.
pub enum StepResult {
    Success,
    Failure,
    Error(String),
}

/// The step after one that came before the push: an error ends the run, and
/// nothing is committed if nothing is staged.
pub fn next_push_step(step: PushStep, result: StepResult) -> (r: PushStep)
    requires
        step is Add || step is CheckStaged || step is Commit,
        !(step is CheckStaged) ==> !(result is Failure),
    ensures
        match result {
            StepResult::Error(e) => r matches PushStep::Done(o) && o@ == PushView::Error(e@),
            _ => match step {
                PushStep::Add => r is CheckStaged,
                PushStep::CheckStaged => if result is Success {
                    r is Push
                } else {
                    r is Commit
                },
                _ => r is Push,
            },
        },
{
    match result {
        StepResult::Error(e) => PushStep::Done(PushOutcome::Error(e)),
        StepResult::Success => match step {
            PushStep::Add => PushStep::CheckStaged,
            _ => PushStep::Push,
        },
        StepResult::Failure => PushStep::Commit,
    }
}

/// The arguments that `git` gets in a step of a commit and push of the file `rel`.
pub open spec fn push_arguments(step: PushStep, rel: Seq<char>, message: Seq<char>) -> Seq<
    Seq<char>,
> {
    match step {
        PushStep::Add => seq!["add"@, "--"@, rel],
        PushStep::CheckStaged => seq!["diff"@, "--cached"@, "--quiet"@],
        PushStep::Commit => seq!["commit"@, "-m"@, message],
        PushStep::Push => seq!["push"@],
        PushStep::Done(_) => Seq::empty(),
    }
}

pub fn push_args(step: &PushStep, rel: &str, message: &str) -> (r: Vec<String>)
    ensures
        words::texts(r@) == push_arguments(*step, rel@, message@),
{
    let mut out: Vec<String> = Vec::new();
    match step {
        PushStep::Add => {
            out.push("add".to_owned());
            out.push("--".to_owned());
            out.push(rel.to_owned());
        },
        PushStep::CheckStaged => {
            out.push("diff".to_owned());
            out.push("--cached".to_owned());
            out.push("--quiet".to_owned());
        },
        PushStep::Commit => {
            out.push("commit".to_owned());
            out.push("-m".to_owned());
            out.push(message.to_owned());
        },
        PushStep::Push => {
            out.push("push".to_owned());
        },
        PushStep::Done(_) => {},
    }
    proof {
        assert(words::texts(out@) =~= push_arguments(*step, rel@, message@));
    }
    out
}

// ---------------------------------------------------------------------------
// Resolving a conflict, step by step
// ---------------------------------------------------------------------------

/// The next `git` run of resolving a rebase conflict.
pub enum ResolveStep {
    /// `git checkout --ours|--theirs -- <file>`
    Checkout,
    /// `git add -- <file>`
    Add,
    /// `git rebase --continue`
    Continue,
    /// `git push`
    Push,
    /// No further run: all of them succeeded, or this is the error
    Done(Result<(), String>),
}

/// Resolve a rebase conflict: take one side, or, where the file was settled by hand,
/// start with adding it; then continue and push. The first error ends it.
pub fn resolve_rebase_conflict(step: ResolveStep, result: Result<(), String>) -> (r: ResolveStep)
    requires
        !(step is Done),
    ensures
        match result {
            Err(e) => r matches ResolveStep::Done(x) && x == Err::<(), String>(e),
            Ok(_) => match step {
                ResolveStep::Checkout => r is Add,
                ResolveStep::Add => r is Continue,
                ResolveStep::Continue => r is Push,
                _ => r matches ResolveStep::Done(x) && x is Ok,
            },
        },
{
    match result {
        Err(e) => ResolveStep::Done(Err(e)),
        Ok(()) => match step {
            ResolveStep::Checkout => ResolveStep::Add,
            ResolveStep::Add => ResolveStep::Continue,
            ResolveStep::Continue => ResolveStep::Push,
            _ => ResolveStep::Done(Ok(())),
        },
    }
}

/// The arguments that `git` gets in a step of resolving a conflict in the file `rel`.
pub open spec fn resolve_arguments(step: ResolveStep, rel: Seq<char>, keep_local: bool) -> Seq<
    Seq<char>,
> {
    match step {
        ResolveStep::Checkout => seq![
            "checkout"@,
            if keep_local {
                "--theirs"@
            } else {
                "--ours"@
            },
            "--"@,
            rel,
        ],
        ResolveStep::Add => seq!["add"@, "--"@, rel],
        ResolveStep::Continue => seq!["rebase"@, "--continue"@],
        ResolveStep::Push => seq!["push"@],
        ResolveStep::Done(_) => Seq::empty(),
    }
}

pub fn resolve_args(step: &ResolveStep, rel: &str, keep_local: bool) -> (r: Vec<String>)
    ensures
        words::texts(r@) == resolve_arguments(*step, rel@, keep_local),
{
    let mut out: Vec<String> = Vec::new();
    match step {
        ResolveStep::Checkout => {
            out.push("checkout".to_owned());
            out.push(conflict_side(keep_local).to_owned());
            out.push("--".to_owned());
            out.push(rel.to_owned());
        },
        ResolveStep::Add => {
            out.push("add".to_owned());
            out.push("--".to_owned());
            out.push(rel.to_owned());
        },
        ResolveStep::Continue => {
            out.push("rebase".to_owned());
            out.push("--continue".to_owned());
        },
        ResolveStep::Push => {
            out.push("push".to_owned());
        },
        ResolveStep::Done(_) => {},
    }
    proof {
        assert(words::texts(out@) =~= resolve_arguments(*step, rel@, keep_local));
    }
    out
}

// ---------------------------------------------------------------------------
// Status bar
// ---------------------------------------------------------------------------

/// The first line of an error, trimmed, and cut after 50 characters.
pub open spec fn short_text(s: Seq<char>) -> Seq<char> {
    let line = words::trim(words::pieces(s, '\n')[0]);
    if line.len() > 50 {
        line.subrange(0, 50).push('\u{2026}')
    } else {
        line
    }
}

pub fn short_err(s: &str) -> (r: String)
    ensures
        r@ == short_text(s@),
{
    let lines = words::split_on(s, '\n');
    proof {
        words::lemma_pieces_nonempty(s@, '\n');
        assert(words::texts(lines@)[0] == lines@[0]@);
    }
    let line = words::trimmed(lines[0].as_str());
    if line.unicode_len() > 50 {
        let mut out = line.substring_char(0, 50).to_owned();
        words::push_char(&mut out, '\u{2026}');
        out
    } else {
        line.to_owned()
    }
}

/// The sync indicator of the status bar.
pub open spec fn indicator(s: StateView) -> Seq<char> {
    match s {
        StateView::Disabled => Seq::empty(),
        StateView::Idle => "  \u{2713}"@,
        StateView::Pulling => "  \u{2193}\u{2026}"@,
        StateView::Pushing => "  \u{2191}\u{2026}"@,
        StateView::AheadBy(n) => "  \u{2191}"@ + words::decimal(n as nat),
        StateView::Offline => "  offline"@,
        StateView::Conflict => "  conflict"@,
        StateView::Error(e) => "  sync: "@ + short_text(e),
    }
}

/// Compact sync-status chunk for the status bar. Empty when sync is Disabled
/// so the status bar isn't cluttered for users not using the feature.
pub fn sync_status_indicator(state: &SyncState) -> (r: String)
    ensures
        r@ == indicator(state@),
{
    match state {
        SyncState::Disabled => {
            let r = String::new();
            proof {
                assert(r@ =~= Seq::<char>::empty());
            }
            r
        },
        SyncState::Idle => "  \u{2713}".to_owned(),
        SyncState::Pulling => "  \u{2193}\u{2026}".to_owned(),
        SyncState::Pushing => "  \u{2191}\u{2026}".to_owned(),
        SyncState::AheadBy(n) => {
            let mut out = String::from_str("  \u{2191}");
            words::push_decimal(&mut out, *n);
            out
        },
        SyncState::Offline => "  offline".to_owned(),
        SyncState::Conflict => "  conflict".to_owned(),
        SyncState::Error(e) => {
            let mut out = String::from_str("  sync: ");
            out.append(short_err(e.as_str()).as_str());
            out
        },
    }
}

// ---------------------------------------------------------------------------
// Laws
// ---------------------------------------------------------------------------

/// Conflict markers in the text are a conflict, on opening a file and after a pull
/// that brought new text.
pub proof fn law_markers_are_a_conflict(remote: bool, pull: Option<PullView>)
    ensures
        opened_state(remote, pull, true) is Conflict,
        pulled_state(PullView::FastForwarded, true) is Conflict,
{
}

/// A run that ends in conflict is never taken for a success: the text of a pull
/// that tells of a conflict is a conflict, whatever the exit status.
pub proof fn law_conflict_is_seen(stdout: Seq<char>, stderr: Seq<char>, success: bool)
    requires
        says(both(stdout, stderr), "CONFLICT"@),
    ensures
        pull_result(stdout, stderr, success) is Conflicted,
{
}

} // verus!
