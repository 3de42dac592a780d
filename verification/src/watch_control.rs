//! Changing the watched directories while the daemon runs.
//!
//! A request is checked and queued here; the thread that watches takes it from
//! the queue, carries it out root by root, and answers.
use vstd::prelude::*;

use crate::fspath::{paths_equal, same_path, texts};

verus! {

// Requests.

/// What serving the watched directories needs of the daemon. A change has the
/// control to itself, so that what the control gives next it gives after the change.
pub trait WatchControl {
    /// The directories that are watched now, in no particular order.
    fn roots(&self) -> Vec<String>;

    /// Watch more directories. Fails if one of them is not a directory.
    fn add_roots(&mut self, roots: Vec<String>) -> Result<(), String>;

    /// Watch only these directories. Fails if one of them is not a directory.
    fn replace_roots(&mut self, roots: Vec<String>) -> Result<(), String>;
}

/// The directories that are watched.
#[derive(Debug, PartialEq, Eq)]
pub struct WatchRootsResponse {
    pub roots: Vec<String>,
}

/// A request to change the directories that are watched.
#[derive(Debug)]
pub struct WatchChangeRequest {
    pub mode: WatchMode,
    pub roots: Vec<String>,
}

/// Whether directories are added to those that are watched or put in their
/// place.
#[derive(Debug, Clone, Copy, PartialEq, Eq, Structural)]
pub enum WatchMode {
    Add,
    Replace,
}

/// A change for the thread that watches.
#[derive(Debug)]
pub enum WatchCommand {
    AddRoots { roots: Vec<String> },
    ReplaceRoots { roots: Vec<String> },
}

impl WatchCommand {
    /// What kind of change it is.
    pub open spec fn mode(self) -> WatchMode {
        match self {
            WatchCommand::AddRoots { .. } => WatchMode::Add,
            WatchCommand::ReplaceRoots { .. } => WatchMode::Replace,
        }
    }

    /// The directories it names.
    pub open spec fn roots(self) -> Seq<Seq<char>> {
        match self {
            WatchCommand::AddRoots { roots } => texts(roots@),
            WatchCommand::ReplaceRoots { roots } => texts(roots@),
        }
    }
}

/// The daemon's side of a change: which directories are watched, and the
/// changes that wait to be carried out.
pub struct DaemonWatchControl {
    roots: Vec<String>,
    queue: Vec<WatchCommand>,
}

impl DaemonWatchControl {
    /// The directories that are watched.
    pub closed spec fn watched(&self) -> Seq<Seq<char>> {
        texts(self.roots@)
    }

    /// The changes that wait, in order.
    pub closed spec fn waiting(&self) -> Seq<WatchCommand> {
        self.queue@
    }

    pub fn new(roots: Vec<String>) -> (r: DaemonWatchControl)
        ensures
            r.watched() == texts(roots@),
            r.waiting() == Seq::<WatchCommand>::empty(),
    {
        DaemonWatchControl { roots, queue: Vec::new() }
    }

    /// The directories that are watched.
    pub fn roots(&self) -> (r: Vec<String>)
        ensures
            texts(r@) == self.watched(),
    {
        copy_texts(&self.roots)
    }

    /// Take over what the thread that watches now watches.
    pub fn set_roots(&mut self, roots: &Vec<String>)
        ensures
            final(self).watched() == texts(roots@),
            final(self).waiting() == old(self).waiting(),
    {
        self.roots = copy_texts(roots);
    }

    /// Queue a change, provided that everything it names is a directory, as
    /// `are_dirs` says of each in turn.
    pub fn request(&mut self, mode: WatchMode, roots: Vec<String>, are_dirs: &Vec<bool>) -> (r: Result<
        (),
        String,
    >)
        requires
            are_dirs@.len() == roots@.len(),
        ensures
            final(self).watched() == old(self).watched(),
            match first_false(are_dirs@) {
                None => {
                    &&& r is Ok
                    &&& final(self).waiting().len() == old(self).waiting().len() + 1
                    &&& final(self).waiting().drop_last() == old(self).waiting()
                    &&& final(self).waiting().last().mode() == mode
                    &&& final(self).waiting().last().roots() == texts(roots@)
                },
                Some(k) => {
                    &&& final(self).waiting() == old(self).waiting()
                    &&& match r {
                        Ok(_) => false,
                        Err(e) => e@ == roots@[k]@ + " is not a directory"@,
                    }
                },
            },
    {
        let mut k: usize = 0;
        assert(are_dirs@.skip(0) =~= are_dirs@);
        while k < roots.len()
            invariant
                0 <= k <= roots.len(),
                are_dirs.len() == roots.len(),
                forall|j: int| 0 <= j < k ==> #[trigger] are_dirs@[j],
                self.watched() == old(self).watched(),
                self.waiting() == old(self).waiting(),
            decreases roots.len() - k,
        {
            if !are_dirs[k] {
                let mut message = roots[k].clone();
                message.append(" is not a directory");
                proof {
                    lemma_first_false(are_dirs@, k as int);
                }
                return Err(message);
            }
            k = k + 1;
        }
        proof {
            lemma_first_false(are_dirs@, are_dirs@.len() as int);
        }
        let command = match mode {
            WatchMode::Add => WatchCommand::AddRoots { roots },
            WatchMode::Replace => WatchCommand::ReplaceRoots { roots },
        };
        self.queue.push(command);
        assert(self.queue@.drop_last() =~= old(self).queue@);
        Ok(())
    }

    /// Queue the addition of directories.
    pub fn add_roots(&mut self, roots: Vec<String>, are_dirs: &Vec<bool>) -> (r: Result<(), String>)
        requires
            are_dirs@.len() == roots@.len(),
        ensures
            final(self).watched() == old(self).watched(),
            r is Ok <==> first_false(are_dirs@) is None,
            match first_false(are_dirs@) {
                None => {
                    &&& final(self).waiting().len() == old(self).waiting().len() + 1
                    &&& final(self).waiting().drop_last() == old(self).waiting()
                    &&& final(self).waiting().last().mode() == WatchMode::Add
                    &&& final(self).waiting().last().roots() == texts(roots@)
                },
                Some(k) => final(self).waiting() == old(self).waiting() && r->Err_0@ == roots@[k]@
                    + " is not a directory"@,
            },
    {
        self.request(WatchMode::Add, roots, are_dirs)
    }

    /// Queue the replacement of the watched directories.
    pub fn replace_roots(&mut self, roots: Vec<String>, are_dirs: &Vec<bool>) -> (r: Result<
        (),
        String,
    >)
        requires
            are_dirs@.len() == roots@.len(),
        ensures
            final(self).watched() == old(self).watched(),
            r is Ok <==> first_false(are_dirs@) is None,
            match first_false(are_dirs@) {
                None => {
                    &&& final(self).waiting().len() == old(self).waiting().len() + 1
                    &&& final(self).waiting().drop_last() == old(self).waiting()
                    &&& final(self).waiting().last().mode() == WatchMode::Replace
                    &&& final(self).waiting().last().roots() == texts(roots@)
                },
                Some(k) => final(self).waiting() == old(self).waiting() && r->Err_0@ == roots@[k]@
                    + " is not a directory"@,
            },
    {
        self.request(WatchMode::Replace, roots, are_dirs)
    }

    /// Take the next change to carry out.
    pub fn take_command(&mut self) -> (r: Option<WatchCommand>)
        ensures
            final(self).watched() == old(self).watched(),
            match r {
                Some(command) => old(self).waiting().len() > 0 && command == old(self).waiting()[0]
                    && final(self).waiting() == old(self).waiting().drop_first(),
                None => old(self).waiting().len() == 0 && final(self).waiting() == old(
                    self,
                ).waiting(),
            },
    {
        if self.queue.len() == 0 {
            None
        } else {
            let command = self.queue.remove(0);
            assert(self.queue@ =~= old(self).queue@.drop_first());
            Some(command)
        }
    }
}

/// Texts, copied.
fn copy_texts(v: &Vec<String>) -> (r: Vec<String>)
    ensures
        texts(r@) == texts(v@),
{
    let mut out: Vec<String> = Vec::new();
    let ghost all = texts(v@);
    let mut k: usize = 0;
    while k < v.len()
        invariant
            0 <= k <= v.len(),
            all == texts(v@),
            texts(out@) =~= all.take(k as int),
        decreases v.len() - k,
    {
        let ghost before = texts(out@);
        out.push(v[k].clone());
        assert(texts(out@) =~= before.push(all[k as int]));
        k = k + 1;
    }
    assert(all.take(v.len() as int) =~= all);
    out
}

/// The first position that does not hold.
pub open spec fn first_false(flags: Seq<bool>) -> Option<int>
    decreases flags.len(),
{
    if flags.len() == 0 {
        None
    } else if first_false(flags.drop_last()) is Some {
        first_false(flags.drop_last())
    } else if !flags.last() {
        Some(flags.len() - 1)
    } else {
        None
    }
}

proof fn lemma_first_false(flags: Seq<bool>, k: int)
    requires
        0 <= k <= flags.len(),
        forall|j: int| 0 <= j < k ==> #[trigger] flags[j],
        k < flags.len() ==> !flags[k],
    ensures
        first_false(flags) == (if k < flags.len() {
            Some(k)
        } else {
            None
        }),
    decreases flags.len(),
{
    if flags.len() > 0 {
        let shorter = flags.drop_last();
        assert forall|j: int| 0 <= j < k && j < shorter.len() implies #[trigger] shorter[j] by {
            assert(flags[j]);
        }
        if k < flags.len() {
            lemma_first_false(shorter, k);
        } else {
            lemma_first_false(shorter, k - 1);
            assert(flags[k - 1]);
        }
    }
}

/// What became of a change that was queued.
#[derive(Debug)]
pub enum Answer {
    /// There is no thread that watches.
    Gone,
    /// The thread did not answer in time.
    Late,
    /// The thread's answer.
    Said(Result<(), String>),
}

/// How long the thread has to answer, in seconds: it scans a new directory
/// before it does.
pub const REPLY_TIMEOUT_SECS: u64 = 30;

/// What to tell the caller of a change.
pub fn outcome(answer: Answer) -> (r: Result<(), String>)
    ensures
        match answer {
            Answer::Gone => r matches Err(e) && e@ == "the observer thread is gone"@,
            Answer::Late => r matches Err(e) && e@
                == "the observer thread did not respond in time"@,
            Answer::Said(said) => r == said,
        },
{
    match answer {
        Answer::Gone => Err("the observer thread is gone".to_owned()),
        Answer::Late => Err("the observer thread did not respond in time".to_owned()),
        Answer::Said(said) => said,
    }
}

// Carrying a change out.

/// Whether a path is among others.
pub open spec fn is_among(root: Seq<char>, roots: Seq<Seq<char>>) -> bool {
    exists|k: int| 0 <= k < roots.len() && same_path(root, #[trigger] roots[k])
}

/// Whether a path is among others.
pub fn among(root: &str, roots: &Vec<String>) -> (r: bool)
    ensures
        r == is_among(root@, texts(roots@)),
{
    let mut k: usize = 0;
    while k < roots.len()
        invariant
            0 <= k <= roots.len(),
            forall|j: int| 0 <= j < k ==> !same_path(root@, #[trigger] texts(roots@)[j]),
        decreases roots.len() - k,
    {
        assert(texts(roots@)[k as int] == roots@[k as int]@);
        if paths_equal(root, roots[k].as_str()) {
            return true;
        }
        k = k + 1;
    }
    false
}

/// Whether any of some paths is among others.
fn any_among(some: &Vec<String>, others: &Vec<String>) -> (r: bool)
    ensures
        r == exists|k: int|
            0 <= k < texts(some@).len() && is_among(#[trigger] texts(some@)[k], texts(others@)),
{
    let mut k: usize = 0;
    while k < some.len()
        invariant
            0 <= k <= some.len(),
            forall|j: int| 0 <= j < k ==> !is_among(#[trigger] texts(some@)[j], texts(others@)),
        decreases some.len() - k,
    {
        assert(texts(some@)[k as int] == some@[k as int]@);
        if among(some[k].as_str(), others) {
            return true;
        }
        k = k + 1;
    }
    false
}

/// What came of scanning and watching one directory.
#[derive(Debug)]
pub enum RootOutcome {
    /// It was scanned and is watched now.
    Watched,
    /// It could not be scanned.
    ScanFailed(String),
    /// It was scanned and could not be watched.
    WatchFailed(String),
}

/// The failure that an outcome stands for.
pub open spec fn root_failure(root: Seq<char>, outcome: RootOutcome) -> Option<Seq<char>> {
    match outcome {
        RootOutcome::Watched => None,
        RootOutcome::ScanFailed(e) => Some("scan of "@ + root + " failed: "@ + e@),
        RootOutcome::WatchFailed(e) => Some("failed to watch "@ + root + ": "@ + e@),
    }
}

/// A change that is being carried out. The directories that it names are
/// scanned and watched first; only then are old ones given up, and only where
/// one that was asked for is watched, so that a replacement leaves no gap in
/// which nothing is watched.
pub struct RootChange {
    replacing: bool,
    requested: Vec<String>,
    next: usize,
    roots: Vec<String>,
    errors: Vec<String>,
}

/// A change that is being carried out: what it asks for, how many of the
/// directories were dealt with, which are watched by now, and what failed.
pub struct ChangeState {
    pub replacing: bool,
    pub requested: Seq<Seq<char>>,
    pub next: int,
    pub roots: Seq<Seq<char>>,
    pub errors: Seq<Seq<char>>,
}

impl View for RootChange {
    type V = ChangeState;

    closed spec fn view(&self) -> ChangeState {
        ChangeState {
            replacing: self.replacing,
            requested: texts(self.requested@),
            next: self.next as int,
            roots: texts(self.roots@),
            errors: texts(self.errors@),
        }
    }
}

/// Texts one behind another, with semicolons between them.
pub open spec fn listed(errors: Seq<Seq<char>>) -> Seq<char>
    decreases errors.len(),
{
    if errors.len() == 0 {
        Seq::empty()
    } else if errors.len() == 1 {
        errors[0]
    } else {
        listed(errors.drop_last()) + "; "@ + errors.last()
    }
}

/// The first of the requested directories, from position `from` on, that is
/// not watched yet.
pub open spec fn next_unwatched(requested: Seq<Seq<char>>, roots: Seq<Seq<char>>, from: int) -> int
    decreases requested.len() - from,
{
    if from < 0 || from >= requested.len() || !is_among(requested[from], roots) {
        from
    } else {
        next_unwatched(requested, roots, from + 1)
    }
}

/// A change that has passed over the directories that are watched already.
pub open spec fn at_next(s: ChangeState) -> ChangeState {
    ChangeState { next: next_unwatched(s.requested, s.roots, s.next), ..s }
}

/// A change once the directory that was to be scanned and watched was dealt with:
/// it is watched now, or its failure is told. The others go on.
pub open spec fn dealt_with(s: ChangeState, outcome: RootOutcome) -> ChangeState {
    let root = s.requested[s.next];
    match root_failure(root, outcome) {
        None => ChangeState { next: s.next + 1, roots: s.roots.push(root), ..s },
        Some(words) => ChangeState { next: s.next + 1, errors: s.errors.push(words), ..s },
    }
}

/// Whether old directories are given up: a replacement was asked for, and at
/// least one of the directories that it names is watched.
pub open spec fn gives_up(s: ChangeState) -> bool {
    s.replacing && exists|k: int|
        0 <= k < s.roots.len() && is_among(#[trigger] s.roots[k], s.requested)
}

/// Those of the watched directories that stay.
pub open spec fn staying(s: ChangeState, n: nat) -> Seq<Seq<char>>
    decreases n,
{
    if n == 0 {
        Seq::empty()
    } else {
        let before = staying(s, (n - 1) as nat);
        if gives_up(s) && !is_among(s.roots[n - 1], s.requested) {
            before
        } else {
            before.push(s.roots[n - 1])
        }
    }
}

/// Those of the watched directories that are given up.
pub open spec fn given_up(s: ChangeState, n: nat) -> Seq<Seq<char>>
    decreases n,
{
    if n == 0 {
        Seq::empty()
    } else {
        let before = given_up(s, (n - 1) as nat);
        if gives_up(s) && !is_among(s.roots[n - 1], s.requested) {
            before.push(s.roots[n - 1])
        } else {
            before
        }
    }
}

/// How a change ended.
#[derive(Debug)]
pub struct Changed {
    /// The directories that are watched from now on.
    pub roots: Vec<String>,
    /// The directories that are to be watched no longer.
    pub dropped: Vec<String>,
    /// What to answer: everything that failed.
    pub reply: Result<(), String>,
}

impl RootChange {
    pub closed spec fn wf(&self) -> bool {
        self.next <= self.requested@.len()
    }

    /// Begin to carry out a change of the directories that are watched now.
    pub fn begin(roots: Vec<String>, command: WatchCommand) -> (r: RootChange)
        ensures
            r.wf(),
            r@ == (ChangeState {
                replacing: command.mode() == WatchMode::Replace,
                requested: command.roots(),
                next: 0,
                roots: texts(roots@),
                errors: Seq::empty(),
            }),
    {
        let (replacing, requested) = match command {
            WatchCommand::AddRoots { roots } => (false, roots),
            WatchCommand::ReplaceRoots { roots } => (true, roots),
        };
        let r = RootChange { replacing, requested, next: 0, roots, errors: Vec::new() };
        assert(r@.errors =~= Seq::<Seq<char>>::empty());
        r
    }

    /// The next directory to scan and to watch, passing over those that are
    /// watched already.
    pub fn next_root(&mut self) -> (r: Option<String>)
        requires
            old(self).wf(),
        ensures
            final(self).wf(),
            final(self)@ == at_next(old(self)@),
            match r {
                Some(root) => final(self)@.next < final(self)@.requested.len() && root@
                    == final(self)@.requested[final(self)@.next],
                None => final(self)@.next == final(self)@.requested.len(),
            },
    {
        let ghost requested = texts(self.requested@);
        let ghost roots = texts(self.roots@);
        while self.next < self.requested.len()
            invariant
                self.next <= self.requested@.len(),
                requested == texts(self.requested@),
                roots == texts(self.roots@),
                self@ == (ChangeState { next: self@.next, ..old(self)@ }),
                next_unwatched(requested, roots, old(self)@.next) == next_unwatched(
                    requested,
                    roots,
                    self.next as int,
                ),
            decreases self.requested.len() - self.next,
        {
            assert(requested[self.next as int] == self.requested@[self.next as int]@);
            if !among(self.requested[self.next].as_str(), &self.roots) {
                return Some(self.requested[self.next].clone());
            }
            self.next = self.next + 1;
        }
        None
    }

    /// Record what came of the directory that was to be scanned and watched.
    pub fn settle(&mut self, outcome: RootOutcome)
        requires
            old(self).wf(),
            old(self)@.next < old(self)@.requested.len(),
        ensures
            final(self).wf(),
            final(self)@ == dealt_with(old(self)@, outcome),
    {
        let ghost before = self@;
        let root = self.requested[self.next].clone();
        assert(before.requested[before.next] == root@);
        match outcome {
            RootOutcome::Watched => {
                let ghost added = root@;
                self.roots.push(root);
                assert(texts(self.roots@) =~= before.roots.push(added));
            },
            RootOutcome::ScanFailed(e) => {
                let mut words = "scan of ".to_owned();
                words.append(root.as_str());
                words.append(" failed: ");
                words.append(e.as_str());
                let ghost said = words@;
                self.errors.push(words);
                assert(texts(self.errors@) =~= before.errors.push(said));
            },
            RootOutcome::WatchFailed(e) => {
                let mut words = "failed to watch ".to_owned();
                words.append(root.as_str());
                words.append(": ");
                words.append(e.as_str());
                let ghost said = words@;
                self.errors.push(words);
                assert(texts(self.errors@) =~= before.errors.push(said));
            },
        }
        assert(self.next < self.requested.len());
        self.next = self.next + 1;
    }

    /// End the change, once every directory was dealt with.
    pub fn finish(self) -> (r: Changed)
        requires
            self.wf(),
            self@.next == self@.requested.len(),
        ensures
            texts(r.roots@) == staying(self@, self@.roots.len()),
            texts(r.dropped@) == given_up(self@, self@.roots.len()),
            if self@.errors.len() == 0 {
                r.reply is Ok
            } else {
                r.reply matches Err(e) && e@ == listed(self@.errors)
            },
    {
        let ghost s = self@;
        let giving_up = self.replacing && any_among(&self.roots, &self.requested);
        let mut kept: Vec<String> = Vec::new();
        let mut dropped: Vec<String> = Vec::new();
        let mut k: usize = 0;
        assert(texts(kept@) =~= staying(s, 0));
        assert(texts(dropped@) =~= given_up(s, 0));
        while k < self.roots.len()
            invariant
                0 <= k <= self.roots.len(),
                s == self@,
                giving_up == gives_up(s),
                texts(kept@) == staying(s, k as nat),
                texts(dropped@) == given_up(s, k as nat),
            decreases self.roots.len() - k,
        {
            let root = self.roots[k].clone();
            assert(s.roots[k as int] == root@);
            let ghost kept_before = texts(kept@);
            let ghost dropped_before = texts(dropped@);
            let ghost name = root@;
            if giving_up && !among(root.as_str(), &self.requested) {
                dropped.push(root);
                assert(texts(dropped@) =~= dropped_before.push(name));
            } else {
                kept.push(root);
                assert(texts(kept@) =~= kept_before.push(name));
            }
            k = k + 1;
        }
        assert(s.roots.len() == self.roots.len());
        assert(s.errors.len() == self.errors.len());
        let reply = if self.errors.len() == 0 {
            Ok(())
        } else {
            Err(list_errors(&self.errors))
        };
        Changed { roots: kept, dropped, reply }
    }
}

/// Texts one behind another, with semicolons between them.
fn list_errors(errors: &Vec<String>) -> (r: String)
    ensures
        r@ == listed(texts(errors@)),
{
    let ghost all = texts(errors@);
    let mut out = String::new();
    let mut k: usize = 0;
    assert(all.take(0) =~= Seq::<Seq<char>>::empty());
    while k < errors.len()
        invariant
            0 <= k <= errors.len(),
            all == texts(errors@),
            out@ == listed(all.take(k as int)),
        decreases errors.len() - k,
    {
        proof {
            assert(all.take(k + 1).drop_last() =~= all.take(k as int));
            assert(all.take(k + 1).last() == errors@[k as int]@);
            if k == 0 {
                assert(all.take(1)[0] == errors@[0]@);
            }
        }
        let ghost before = out@;
        if k > 0 {
            out.append("; ");
        }
        out.append(errors[k].as_str());
        assert(out@ =~= listed(all.take(k + 1)));
        k = k + 1;
    }
    assert(all.take(errors.len() as int) =~= all);
    out
}

// Laws.

/// Adding gives nothing up.
pub proof fn adding_keeps_every_root(s: ChangeState, n: nat)
    requires
        !s.replacing,
        n <= s.roots.len(),
    ensures
        staying(s, n) == s.roots.take(n as int),
        given_up(s, n).len() == 0,
{
    a_failed_replacement_keeps_every_root(s, n);
}

/// Once one of the directories that a replacement names is watched, only such
/// directories stay, and none of them is given up.
pub proof fn replacing_keeps_what_was_asked_for(s: ChangeState, n: nat)
    requires
        gives_up(s),
        n <= s.roots.len(),
    ensures
        forall|k: int|
            0 <= k < staying(s, n).len() ==> is_among(#[trigger] staying(s, n)[k], s.requested),
        forall|k: int|
            0 <= k < given_up(s, n).len() ==> !is_among(#[trigger] given_up(s, n)[k], s.requested),
        forall|k: int|
            0 <= k < n && is_among(#[trigger] s.roots[k], s.requested) ==> staying(s, n).contains(
                s.roots[k],
            ),
    decreases n,
{
    if n > 0 {
        replacing_keeps_what_was_asked_for(s, (n - 1) as nat);
        let before = staying(s, (n - 1) as nat);
        let after = staying(s, n);
        assert forall|k: int| 0 <= k < given_up(s, n).len() implies !is_among(
            #[trigger] given_up(s, n)[k],
            s.requested,
        ) by {
            let shorter = given_up(s, (n - 1) as nat);
            if k < shorter.len() {
                assert(given_up(s, n)[k] == shorter[k]);
            }
        }
        assert forall|k: int| 0 <= k < n && is_among(#[trigger] s.roots[k], s.requested) implies after.contains(
            s.roots[k],
        ) by {
            if k < n - 1 {
                let i = choose|i: int| 0 <= i < before.len() && before[i] == s.roots[k];
                assert(after[i] == s.roots[k]);
            } else {
                assert(after[after.len() - 1] == s.roots[k]);
            }
        }
    }
}

/// A replacement of which nothing came to be watched gives nothing up.
pub proof fn a_failed_replacement_keeps_every_root(s: ChangeState, n: nat)
    requires
        !gives_up(s),
        n <= s.roots.len(),
    ensures
        staying(s, n) == s.roots.take(n as int),
        given_up(s, n).len() == 0,
    decreases n,
{
    if n == 0 {
        assert(s.roots.take(0) =~= Seq::<Seq<char>>::empty());
    } else {
        a_failed_replacement_keeps_every_root(s, (n - 1) as nat);
        assert(s.roots.take(n as int) =~= s.roots.take(n - 1).push(s.roots[n - 1]));
    }
}

/// Where something is watched, no change leaves nothing watched.
pub proof fn a_change_leaves_no_gap(s: ChangeState)
    requires
        s.roots.len() > 0,
    ensures
        staying(s, s.roots.len()).len() > 0,
{
    if gives_up(s) {
        replacing_keeps_what_was_asked_for(s, s.roots.len());
        let k = choose|k: int|
            0 <= k < s.roots.len() && is_among(#[trigger] s.roots[k], s.requested);
        assert(staying(s, s.roots.len()).contains(s.roots[k]));
    } else {
        a_failed_replacement_keeps_every_root(s, s.roots.len());
    }
}

/// A change once so many of the outcomes have come in.
pub open spec fn carried(s: ChangeState, outcomes: Seq<RootOutcome>, n: nat) -> ChangeState
    decreases n,
{
    if n == 0 {
        s
    } else {
        let before = at_next(carried(s, outcomes, (n - 1) as nat));
        if before.next < before.requested.len() {
            dealt_with(before, outcomes[n - 1])
        } else {
            before
        }
    }
}

/// Whether the failure of a directory is among what is told.
pub open spec fn is_told(s: ChangeState, root: Seq<char>, outcomes: Seq<RootOutcome>) -> bool {
    exists|k: int|
        0 <= k < outcomes.len() && root_failure(root, #[trigger] outcomes[k]) is Some
            && s.errors.contains(root_failure(root, outcomes[k])->0)
}

proof fn lemma_passed_over(requested: Seq<Seq<char>>, roots: Seq<Seq<char>>, from: int)
    requires
        0 <= from <= requested.len(),
    ensures
        from <= next_unwatched(requested, roots, from) <= requested.len(),
        forall|k: int|
            from <= k < next_unwatched(requested, roots, from) ==> is_among(
                #[trigger] requested[k],
                roots,
            ),
    decreases requested.len() - from,
{
    if from < requested.len() && is_among(requested[from], roots) {
        lemma_passed_over(requested, roots, from + 1);
    }
}

/// However many outcomes have come in, every directory that was come to is watched
/// or its failure is told, and nothing that was watched is given up yet. So a
/// directory that fails stops none of the others, and where it fails is not lost.
pub proof fn every_requested_root_is_dealt_with(
    s: ChangeState,
    outcomes: Seq<RootOutcome>,
    n: nat,
)
    requires
        s.next == 0,
        n <= outcomes.len(),
    ensures
        ({
            let t = at_next(carried(s, outcomes, n));
            &&& 0 <= t.next <= t.requested.len()
            &&& t.requested == s.requested
            &&& s.roots.len() <= t.roots.len() && t.roots.take(s.roots.len() as int) == s.roots
            &&& forall|k: int|
                0 <= k < t.next ==> is_among(#[trigger] t.requested[k], t.roots) || is_told(
                    t,
                    t.requested[k],
                    outcomes,
                )
            &&& n >= s.requested.len() ==> t.next == t.requested.len()
        }),
{
    lemma_dealt_with(s, outcomes, n);
    let u = carried(s, outcomes, n);
    lemma_passed_over(u.requested, u.roots, u.next);
    let t = at_next(u);
    assert forall|k: int| 0 <= k < t.next implies is_among(#[trigger] t.requested[k], t.roots)
        || is_told(t, t.requested[k], outcomes) by {
        if k < u.next {
            assert(is_among(u.requested[k], u.roots) || is_told(u, u.requested[k], outcomes));
            if is_told(u, u.requested[k], outcomes) {
                let j = choose|j: int|
                    0 <= j < outcomes.len() && root_failure(u.requested[k], #[trigger] outcomes[j])
                        is Some && u.errors.contains(
                        root_failure(u.requested[k], outcomes[j])->0,
                    );
                assert(t.errors.contains(root_failure(t.requested[k], outcomes[j])->0));
            }
        }
    }
}

proof fn lemma_dealt_with(s: ChangeState, outcomes: Seq<RootOutcome>, n: nat)
    requires
        s.next == 0,
        n <= outcomes.len(),
    ensures
        ({
            let t = carried(s, outcomes, n);
            &&& 0 <= t.next <= t.requested.len()
            &&& t.requested == s.requested
            &&& s.roots.len() <= t.roots.len() && t.roots.take(s.roots.len() as int) == s.roots
            &&& forall|k: int|
                0 <= k < t.next ==> is_among(#[trigger] t.requested[k], t.roots) || is_told(
                    t,
                    t.requested[k],
                    outcomes,
                )
            &&& t.next >= n || t.next == t.requested.len()
        }),
    decreases n,
{
    if n == 0 {
        assert(s.roots.take(s.roots.len() as int) =~= s.roots);
    } else {
        lemma_dealt_with(s, outcomes, (n - 1) as nat);
        let u = carried(s, outcomes, (n - 1) as nat);
        lemma_passed_over(u.requested, u.roots, u.next);
        let m = at_next(u);
        let t = carried(s, outcomes, n);
        assert(t.roots.take(s.roots.len() as int) =~= u.roots.take(s.roots.len() as int));
        assert forall|k: int| 0 <= k < t.next implies is_among(#[trigger] t.requested[k], t.roots)
            || is_told(t, t.requested[k], outcomes) by {
            let root = t.requested[k];
            if k < m.next {
                if is_among(u.requested[k], u.roots) {
                    let j = choose|j: int|
                        0 <= j < u.roots.len() && same_path(u.requested[k], #[trigger] u.roots[j]);
                    assert(t.roots[j] == u.roots[j]);
                } else {
                    assert(k < u.next);
                    let j = choose|j: int|
                        0 <= j < outcomes.len() && root_failure(root, #[trigger] outcomes[j])
                            is Some && u.errors.contains(root_failure(root, outcomes[j])->0);
                    let words = root_failure(root, outcomes[j])->0;
                    let e = choose|e: int| 0 <= e < u.errors.len() && u.errors[e] == words;
                    assert(t.errors[e] == words);
                }
            } else {
                match root_failure(root, outcomes[n - 1]) {
                    None => {
                        assert(same_path(root, t.roots[t.roots.len() - 1]));
                    },
                    Some(words) => {
                        assert(t.errors[t.errors.len() - 1] == words);
                        assert(t.errors.contains(words));
                    },
                }
            }
        }
    }
}

/// What failed is told with the directory that it failed for and with why; several failures
/// are told one behind another.
pub proof fn a_failure_names_its_directory(
    root: Seq<char>,
    why: String,
    errors: Seq<Seq<char>>,
    error: Seq<char>,
)
    ensures
        root_failure(root, RootOutcome::Watched) is None,
        root_failure(root, RootOutcome::ScanFailed(why)) == Some(
            "scan of "@ + root + " failed: "@ + why@,
        ),
        root_failure(root, RootOutcome::WatchFailed(why)) == Some(
            "failed to watch "@ + root + ": "@ + why@,
        ),
        listed(seq![error]) == error,
        errors.len() > 0 ==> listed(errors.push(error)) == listed(errors) + "; "@ + error,
{
    assert(errors.push(error).drop_last() =~= errors);
}

} // verus!
