//! What the observer does, one step after another.
//!
//! It scans the directories it starts with, queues once what an older
//! extractor left, starts to watch, and then goes round: every command that
//! waits is carried out, the watch is polled, and what it reports is recorded.
//! Where reports were lost, every directory is scanned again.
//!
//! The scans, the watch and the commands themselves are someone else's work.
//! [`Observe::next`] is told what came of the last step and says what the next
//! one is. A directory that cannot be scanned, or a change that cannot be
//! recorded, stops none of the others.
use vstd::prelude::*;

use crate::fspath::texts;
use crate::watch::{Change, ChangeView};

verus! {

/// What the observer is to do.
#[derive(Debug)]
pub enum ObserveStep {
    /// Scan a directory.
    Scan(String),
    /// Queue what the current extractor has not seen.
    Requeue,
    /// Start to watch the directories.
    Watch,
    /// Carry out one command, if one waits.
    Command,
    /// Take in what the watch reports.
    Poll,
    /// Record a change that was reported.
    Apply(Change),
    /// End.
    Stop,
}

/// What the observer is to do, over mathematical text.
pub enum StepView {
    Scan(Seq<char>),
    Requeue,
    Watch,
    Command,
    Poll,
    Apply(ChangeView),
    Stop,
}

impl View for ObserveStep {
    type V = StepView;

    open spec fn view(&self) -> StepView {
        match self {
            ObserveStep::Scan(root) => StepView::Scan(root@),
            ObserveStep::Requeue => StepView::Requeue,
            ObserveStep::Watch => StepView::Watch,
            ObserveStep::Command => StepView::Command,
            ObserveStep::Poll => StepView::Poll,
            ObserveStep::Apply(change) => StepView::Apply(change@),
            ObserveStep::Stop => StepView::Stop,
        }
    }
}

/// What came of a step.
#[derive(Debug)]
pub enum Outcome {
    /// It was done, or there was nothing to do.
    Done,
    /// It failed.
    Failed,
    /// A command was carried out, and these directories are watched now.
    Reconfigured(Vec<String>),
    /// The watch reports these changes.
    Changes(Vec<Change>),
}

/// What came of the last step, and whether the observer was asked to stop.
#[derive(Debug)]
pub struct ObserveEvent {
    pub outcome: Outcome,
    pub stopping: bool,
}

/// What the last step was for.
#[derive(Debug, Clone, Copy, PartialEq, Eq, Structural)]
pub enum Phase {
    /// The first scans.
    Starting,
    /// Filling the queue.
    Requeueing,
    /// Starting to watch.
    Opening,
    /// Commands.
    Commanding,
    /// Waiting for changes.
    Polling,
    /// Recording changes.
    Applying,
    /// Nothing more is to be done.
    Stopped,
}

/// The changes over mathematical text.
pub open spec fn change_views(changes: Seq<Change>) -> Seq<ChangeView> {
    changes.map_values(|c: Change| c@)
}

/// How far the observer is.
#[verifier::ext_equal]
pub struct ObserveState {
    pub phase: Phase,
    /// The directories that are watched.
    pub roots: Seq<Seq<char>>,
    /// Which of them is to be scanned next: all of them were where this is
    /// their number.
    pub next_root: int,
    /// The changes that were reported last.
    pub changes: Seq<ChangeView>,
    /// Which of them is to be recorded next.
    pub next_change: int,
}

impl ObserveState {
    pub open spec fn wf(self) -> bool {
        &&& 0 <= self.next_root <= self.roots.len()
        &&& 0 <= self.next_change <= self.changes.len()
        &&& match self.phase {
            Phase::Starting | Phase::Applying | Phase::Stopped => true,
            _ => self.next_root == self.roots.len(),
        }
    }

    pub open spec fn stop(self) -> (ObserveState, StepView) {
        (ObserveState { phase: Phase::Stopped, ..self }, StepView::Stop)
    }

    /// The next directory is scanned.
    pub open spec fn scan(self) -> (ObserveState, StepView) {
        (
            ObserveState { next_root: self.next_root + 1, ..self },
            StepView::Scan(self.roots[self.next_root]),
        )
    }

    /// Another round begins, with the commands, unless it is time to stop.
    pub open spec fn round(self, stopping: bool) -> (ObserveState, StepView) {
        if stopping {
            self.stop()
        } else {
            (ObserveState { phase: Phase::Commanding, ..self }, StepView::Command)
        }
    }

    /// The changes are recorded in their order. Where one says that reports were
    /// lost, every directory is scanned again before the next one is recorded.
    pub open spec fn apply(self, stopping: bool) -> (ObserveState, StepView)
        decreases self.changes.len() - self.next_change,
    {
        if self.next_root < self.roots.len() {
            self.scan()
        } else if 0 <= self.next_change < self.changes.len() {
            let rest = ObserveState { next_change: self.next_change + 1, ..self };
            match self.changes[self.next_change] {
                ChangeView::Overflowed => ObserveState { next_root: 0, ..rest }.apply(stopping),
                change => (rest, StepView::Apply(change)),
            }
        } else {
            self.round(stopping)
        }
    }
}

/// The observer's next step, and how far it is then.
pub open spec fn observed(s: ObserveState, event: ObserveEvent) -> (ObserveState, StepView) {
    match s.phase {
        Phase::Starting => if s.next_root >= s.roots.len() {
            (ObserveState { phase: Phase::Requeueing, ..s }, StepView::Requeue)
        } else if event.stopping {
            s.stop()
        } else {
            s.scan()
        },
        Phase::Requeueing => (ObserveState { phase: Phase::Opening, ..s }, StepView::Watch),
        Phase::Opening => if event.outcome is Failed {
            s.stop()
        } else {
            s.round(event.stopping)
        },
        Phase::Commanding => match event.outcome {
            Outcome::Reconfigured(roots) => (
                ObserveState { roots: texts(roots@), next_root: roots@.len() as int, ..s },
                StepView::Command,
            ),
            _ => (ObserveState { phase: Phase::Polling, ..s }, StepView::Poll),
        },
        Phase::Polling => match event.outcome {
            Outcome::Changes(changes) => ObserveState {
                phase: Phase::Applying,
                changes: change_views(changes@),
                next_change: 0,
                ..s
            }.apply(event.stopping),
            _ => s.round(event.stopping),
        },
        Phase::Applying => s.apply(event.stopping),
        Phase::Stopped => s.stop(),
    }
}

/// The observer's course.
pub struct Observe {
    phase: Phase,
    roots: Vec<String>,
    next_root: usize,
    changes: Vec<Change>,
    next_change: usize,
}

impl View for Observe {
    type V = ObserveState;

    closed spec fn view(&self) -> ObserveState {
        ObserveState {
            phase: self.phase,
            roots: texts(self.roots@),
            next_root: self.next_root as int,
            changes: change_views(self.changes@),
            next_change: self.next_change as int,
        }
    }
}

fn copy_change(change: &Change) -> (r: Change)
    ensures
        r@ == change@,
{
    match change {
        Change::Touched(path) => Change::Touched(path.clone()),
        Change::Removed(path) => Change::Removed(path.clone()),
        Change::Renamed { from, to } => Change::Renamed { from: from.clone(), to: to.clone() },
        Change::Overflowed => Change::Overflowed,
    }
}

impl Observe {
    /// Before the first step. The first scans can be left out.
    pub fn begin(roots: Vec<String>, skip_initial: bool) -> (r: Observe)
        ensures
            r@.wf(),
            r@ == (ObserveState {
                phase: Phase::Starting,
                roots: texts(roots@),
                next_root: if skip_initial {
                    roots@.len() as int
                } else {
                    0
                },
                changes: Seq::empty(),
                next_change: 0,
            }),
    {
        let next_root: usize = if skip_initial {
            roots.len()
        } else {
            0
        };
        let r = Observe {
            phase: Phase::Starting,
            roots,
            next_root,
            changes: Vec::new(),
            next_change: 0,
        };
        assert(r@.changes =~= Seq::<ChangeView>::empty());
        r
    }

    /// The directories that are watched.
    pub fn roots(&self) -> (r: &Vec<String>)
        ensures
            texts(r@) == self@.roots,
    {
        &self.roots
    }

    /// The next step, given what came of the last one. Before the first step
    /// there is nothing to tell but whether to stop.
    pub fn next(&mut self, event: ObserveEvent) -> (r: ObserveStep)
        requires
            old(self)@.wf(),
        ensures
            final(self)@.wf(),
            (final(self)@, r@) == observed(old(self)@, event),
    {
        let stopping = event.stopping;
        match self.phase {
            Phase::Starting => {
                if self.next_root >= self.roots.len() {
                    self.phase = Phase::Requeueing;
                    ObserveStep::Requeue
                } else if stopping {
                    self.stop()
                } else {
                    self.scan()
                }
            },
            Phase::Requeueing => {
                self.phase = Phase::Opening;
                ObserveStep::Watch
            },
            Phase::Opening => match event.outcome {
                Outcome::Failed => self.stop(),
                _ => self.round(stopping),
            },
            Phase::Commanding => match event.outcome {
                Outcome::Reconfigured(roots) => {
                    self.next_root = roots.len();
                    self.roots = roots;
                    ObserveStep::Command
                },
                _ => {
                    self.phase = Phase::Polling;
                    ObserveStep::Poll
                },
            },
            Phase::Polling => match event.outcome {
                Outcome::Changes(changes) => {
                    self.phase = Phase::Applying;
                    self.changes = changes;
                    self.next_change = 0;
                    self.apply(stopping)
                },
                _ => self.round(stopping),
            },
            Phase::Applying => self.apply(stopping),
            Phase::Stopped => self.stop(),
        }
    }

    fn stop(&mut self) -> (r: ObserveStep)
        requires
            old(self)@.wf(),
        ensures
            final(self)@.wf(),
            (final(self)@, r@) == old(self)@.stop(),
    {
        self.phase = Phase::Stopped;
        ObserveStep::Stop
    }

    fn round(&mut self, stopping: bool) -> (r: ObserveStep)
        requires
            old(self)@.wf(),
            old(self)@.next_root == old(self)@.roots.len(),
        ensures
            final(self)@.wf(),
            (final(self)@, r@) == old(self)@.round(stopping),
    {
        if stopping {
            self.stop()
        } else {
            self.phase = Phase::Commanding;
            ObserveStep::Command
        }
    }

    fn scan(&mut self) -> (r: ObserveStep)
        requires
            old(self)@.wf(),
            old(self)@.phase is Starting || old(self)@.phase is Applying,
            old(self)@.next_root < old(self)@.roots.len(),
        ensures
            final(self)@.wf(),
            (final(self)@, r@) == old(self)@.scan(),
    {
        let root = self.roots[self.next_root].clone();
        assert(self@.roots[self@.next_root] == root@);
        assert(self.next_root < self.roots.len());
        self.next_root = self.next_root + 1;
        ObserveStep::Scan(root)
    }

    fn apply(&mut self, stopping: bool) -> (r: ObserveStep)
        requires
            old(self)@.wf(),
            old(self)@.phase is Applying,
        ensures
            final(self)@.wf(),
            (final(self)@, r@) == old(self)@.apply(stopping),
    {
        while self.next_root >= self.roots.len() && self.next_change < self.changes.len()
            invariant
                self@.wf(),
                self@.phase is Applying,
                self@.apply(stopping) == old(self)@.apply(stopping),
            decreases self.changes.len() - self.next_change,
        {
            let change = copy_change(&self.changes[self.next_change]);
            assert(self@.changes[self@.next_change] == change@);
            self.next_change = self.next_change + 1;
            match change {
                Change::Overflowed => {
                    self.next_root = 0;
                },
                _ => {
                    return ObserveStep::Apply(change);
                },
            }
        }
        if self.next_root < self.roots.len() {
            self.scan()
        } else {
            self.round(stopping)
        }
    }
}

// Laws.

/// How far the observer is after the first `n` events.
pub open spec fn after(s: ObserveState, events: Seq<ObserveEvent>, n: nat) -> ObserveState
    decreases n,
{
    if n == 0 {
        s
    } else {
        observed(after(s, events, (n - 1) as nat), events[n - 1]).0
    }
}

/// The step that follows event number `i`.
pub open spec fn step_at(s: ObserveState, events: Seq<ObserveEvent>, i: int) -> StepView {
    observed(after(s, events, i as nat), events[i]).1
}

/// Scans under way are finished, whatever comes of each.
proof fn lemma_scans(s: ObserveState, events: Seq<ObserveEvent>, n: nat)
    requires
        s.wf(),
        s.phase is Applying || (s.phase is Starting && forall|i: int|
            0 <= i < events.len() ==> !(#[trigger] events[i]).stopping),
        n <= s.roots.len() - s.next_root,
        n <= events.len(),
    ensures
        after(s, events, n) == (ObserveState { next_root: s.next_root + n, ..s }),
        forall|i: int|
            0 <= i < n ==> #[trigger] step_at(s, events, i) == StepView::Scan(
                s.roots[s.next_root + i],
            ),
    decreases n,
{
    if n > 0 {
        lemma_scans(s, events, (n - 1) as nat);
        assert(events[n - 1] == events[n - 1]);
        assert forall|i: int| 0 <= i < n implies #[trigger] step_at(s, events, i)
            == StepView::Scan(s.roots[s.next_root + i]) by {
            if i == n - 1 {
                assert(after(s, events, i as nat) == after(s, events, (n - 1) as nat));
            }
        }
    }
}

/// At the start every directory is scanned, in their order, whatever comes of
/// each scan; then the queue is filled, and then they are watched.
pub proof fn the_start_takes_every_root(s: ObserveState, events: Seq<ObserveEvent>)
    requires
        s.wf(),
        s.phase is Starting,
        s.next_root == 0,
        events.len() == s.roots.len() + 2,
        forall|i: int| 0 <= i < events.len() ==> !(#[trigger] events[i]).stopping,
    ensures
        forall|i: int|
            0 <= i < s.roots.len() ==> #[trigger] step_at(s, events, i) == StepView::Scan(
                s.roots[i],
            ),
        step_at(s, events, s.roots.len() as int) == StepView::Requeue,
        step_at(s, events, s.roots.len() as int + 1) == StepView::Watch,
{
    lemma_scans(s, events, s.roots.len());
    let n = s.roots.len();
    assert(after(s, events, (n + 1) as nat) == observed(after(s, events, n), events[n as int]).0);
}

/// Where reports were lost, every directory is scanned again, in their order,
/// whatever comes of each scan; and then the changes that follow are recorded as
/// though nothing had failed.
pub proof fn a_rescan_takes_every_root(s: ObserveState, events: Seq<ObserveEvent>)
    requires
        s.wf(),
        s.phase is Applying,
        s.next_root == s.roots.len(),
        s.next_change < s.changes.len(),
        s.changes[s.next_change] is Overflowed,
        0 < s.roots.len() <= events.len(),
    ensures
        forall|i: int|
            0 <= i < s.roots.len() ==> #[trigger] step_at(s, events, i) == StepView::Scan(
                s.roots[i],
            ),
        after(s, events, s.roots.len()) == (ObserveState { next_change: s.next_change + 1, ..s }),
{
    let n = s.roots.len();
    let scanning = ObserveState { next_root: 0, next_change: s.next_change + 1, ..s };
    lemma_scans(scanning, events, n);
    assert(observed(s, events[0]) == observed(scanning, events[0]));
    lemma_same_course(s, scanning, events, n);
    assert forall|i: int| 0 <= i < n implies #[trigger] step_at(s, events, i) == StepView::Scan(
        s.roots[i],
    ) by {
        assert(step_at(scanning, events, i) == StepView::Scan(scanning.roots[0 + i]));
        if i > 0 {
            lemma_same_course(s, scanning, events, i as nat);
        }
    }
}

/// Two observers that take the same first step take the same steps from then on.
proof fn lemma_same_course(s: ObserveState, t: ObserveState, events: Seq<ObserveEvent>, n: nat)
    requires
        n > 0,
        observed(s, events[0]) == observed(t, events[0]),
    ensures
        after(s, events, n) == after(t, events, n),
    decreases n,
{
    if n > 1 {
        lemma_same_course(s, t, events, (n - 1) as nat);
    } else {
        assert(after(s, events, 0) == s);
        assert(after(t, events, 0) == t);
    }
}

/// A failure changes nothing about what is done next, but where the watch could
/// not be started: then there is nothing to observe, and the observer stops.
pub proof fn a_failure_stops_nothing_else(s: ObserveState, stopping: bool)
    ensures
        ({
            let failed = observed(s, ObserveEvent { outcome: Outcome::Failed, stopping });
            let done = observed(s, ObserveEvent { outcome: Outcome::Done, stopping });
            if s.phase is Opening {
                failed == s.stop()
            } else {
                failed == done
            }
        }),
{
}

/// What recording changes can come to.
proof fn lemma_apply_steps(s: ObserveState, stopping: bool)
    requires
        s.phase is Applying,
    ensures
        ({
            let (t, step) = s.apply(stopping);
            ||| step is Scan && t.phase is Applying
            ||| step is Apply && t.phase is Applying
            ||| step is Command && t.phase is Commanding && !stopping
            ||| step is Stop && t.phase is Stopped && stopping
        }),
    decreases s.changes.len() - s.next_change,
{
    if !(s.next_root < s.roots.len()) && 0 <= s.next_change < s.changes.len() {
        let rest = ObserveState { next_change: s.next_change + 1, ..s };
        if s.changes[s.next_change] is Overflowed {
            lemma_apply_steps(ObserveState { next_root: 0, ..rest }, stopping);
        }
    }
}

/// What kind of step an event can lead to.
proof fn lemma_steps(s: ObserveState, event: ObserveEvent)
    ensures
        ({
            let (t, step) = observed(s, event);
            &&& step is Requeue <==> t.phase is Requeueing
            &&& t.phase is Requeueing ==> s.phase is Starting
            &&& t.phase is Starting ==> s.phase is Starting
            &&& step is Command <==> t.phase is Commanding
            &&& step is Poll <==> s.phase is Commanding && !(event.outcome is Reconfigured)
            &&& step is Poll <==> t.phase is Polling
            &&& step is Stop <==> t.phase is Stopped
            &&& step is Watch <==> t.phase is Opening
            &&& t.phase is Opening ==> s.phase is Requeueing
            &&& t.phase is Commanding || t.phase is Polling || t.phase is Applying
                ==> !(s.phase is Starting) && !(s.phase is Requeueing) && !(s.phase is Stopped)
        }),
{
    if s.phase is Applying {
        lemma_apply_steps(s, event.stopping);
    }
    if s.phase is Polling {
        if let Outcome::Changes(changes) = event.outcome {
            lemma_apply_steps(
                ObserveState {
                    phase: Phase::Applying,
                    changes: change_views(changes@),
                    next_change: 0,
                    ..s
                },
                event.stopping,
            );
        }
    }
}

/// The watch is polled only after a look for commands that found none.
pub proof fn commands_come_before_a_poll(s: ObserveState, events: Seq<ObserveEvent>, i: int)
    requires
        0 < i < events.len(),
        step_at(s, events, i) is Poll,
    ensures
        step_at(s, events, i - 1) is Command,
        !(events[i].outcome is Reconfigured),
{
    lemma_steps(after(s, events, i as nat), events[i]);
    lemma_steps(after(s, events, (i - 1) as nat), events[i - 1]);
    assert(after(s, events, i as nat) == observed(
        after(s, events, (i - 1) as nat),
        events[i - 1],
    ).0);
}

/// An observer at its start polls for the first time only after the queue was
/// filled, and the queue is filled only once.
pub proof fn the_queue_is_filled_once(s: ObserveState, events: Seq<ObserveEvent>, i: int, j: int)
    requires
        s.phase is Starting,
        0 <= i < events.len(),
        0 <= j < events.len(),
    ensures
        step_at(s, events, i) is Requeue && step_at(s, events, j) is Requeue ==> i == j,
        step_at(s, events, i) is Poll ==> exists|k: int|
            0 <= k < i && #[trigger] step_at(s, events, k) is Requeue,
{
    lemma_steps(after(s, events, i as nat), events[i]);
    lemma_steps(after(s, events, j as nat), events[j]);
    lemma_filled(s, events, i as nat);
    lemma_filled(s, events, j as nat);
}

/// After `n` events the observer is still at its start, or has stopped, or the
/// queue was filled.
proof fn lemma_filled(s: ObserveState, events: Seq<ObserveEvent>, n: nat)
    requires
        s.phase is Starting,
        n <= events.len(),
    ensures
        ({
            let t = after(s, events, n);
            &&& t.phase is Starting ==> forall|k: int|
                0 <= k < n ==> !(#[trigger] step_at(s, events, k) is Requeue)
            &&& !(t.phase is Starting) && !(t.phase is Stopped) ==> exists|k: int|
                0 <= k < n && #[trigger] step_at(s, events, k) is Requeue
        }),
    decreases n,
{
    if n > 0 {
        let m = (n - 1) as nat;
        lemma_filled(s, events, m);
        lemma_steps(after(s, events, m), events[m as int]);
        assert(step_at(s, events, m as int) == observed(after(s, events, m), events[m as int]).1);
    }
}

/// The observer stops only where it was asked to, or where the watch could not be
/// started; once it has stopped it stays so.
pub proof fn it_stops_only_when_asked(s: ObserveState, event: ObserveEvent)
    ensures
        observed(s, event).1 is Stop ==> event.stopping || s.phase is Stopped || (
        s.phase is Opening && event.outcome is Failed),
        s.phase is Stopped ==> observed(s, event) == s.stop(),
{
    if s.phase is Applying {
        lemma_apply_steps(s, event.stopping);
    }
    if s.phase is Polling {
        if let Outcome::Changes(changes) = event.outcome {
            lemma_apply_steps(
                ObserveState {
                    phase: Phase::Applying,
                    changes: change_views(changes@),
                    next_change: 0,
                    ..s
                },
                event.stopping,
            );
        }
    }
}

/// What the watch reports is recorded change by change, in the order of the reports, and
/// each change once; then another round begins with the commands.
pub proof fn changes_are_recorded_in_their_order(
    s: ObserveState,
    changes: Vec<Change>,
    events: Seq<ObserveEvent>,
    n: nat,
)
    requires
        s.wf(),
        s.phase is Polling,
        n <= changes@.len(),
        events.len() == changes@.len() + 1,
        events[0].outcome == Outcome::Changes(changes),
        forall|i: int| 0 <= i < changes@.len() ==> !((#[trigger] changes@[i])@ is Overflowed),
        forall|i: int| 0 <= i < events.len() ==> !(#[trigger] events[i]).stopping,
    ensures
        step_at(s, events, n as int) == (if n < changes@.len() {
            StepView::Apply(changes@[n as int]@)
        } else {
            StepView::Command
        }),
{
    let views = change_views(changes@);
    assert forall|i: int| 0 <= i < views.len() implies !(#[trigger] views[i] is Overflowed) by {
        assert(!(changes@[i]@ is Overflowed));
    }
    if n == 0 {
        if changes@.len() > 0 {
            assert(views[0] == changes@[0]@);
        }
    } else {
        lemma_applied(s, views, changes, events, n);
        assert(!events[n as int].stopping);
        if n < changes@.len() {
            assert(views[n as int] == changes@[n as int]@);
        }
    }
}

proof fn lemma_applied(
    s: ObserveState,
    views: Seq<ChangeView>,
    changes: Vec<Change>,
    events: Seq<ObserveEvent>,
    n: nat,
)
    requires
        s.wf(),
        s.phase is Polling,
        0 < n <= views.len(),
        views == change_views(changes@),
        events.len() == views.len() + 1,
        events[0].outcome == Outcome::Changes(changes),
        forall|i: int| 0 <= i < views.len() ==> !(#[trigger] views[i] is Overflowed),
        forall|i: int| 0 <= i < events.len() ==> !(#[trigger] events[i]).stopping,
    ensures
        after(s, events, n) == (ObserveState {
            phase: Phase::Applying,
            changes: views,
            next_change: n as int,
            ..s
        }),
    decreases n,
{
    if n > 1 {
        lemma_applied(s, views, changes, events, (n - 1) as nat);
        assert(!(views[n - 1] is Overflowed));
        assert(!events[n - 1].stopping);
    } else {
        assert(after(s, events, 0) == s);
        assert(!(views[0] is Overflowed));
    }
}

/// The directories that a command leaves behind are the ones that are scanned and watched
/// from then on; commands go on until none waits.
pub proof fn a_command_sets_the_directories(s: ObserveState, roots: Vec<String>, stopping: bool)
    requires
        s.phase is Commanding,
    ensures
        ({
            let (t, step) = observed(
                s,
                ObserveEvent { outcome: Outcome::Reconfigured(roots), stopping },
            );
            &&& t.roots == texts(roots@)
            &&& t.phase is Commanding
            &&& step is Command
            &&& t.changes == s.changes
            &&& s.wf() ==> t.wf()
        }),
{
    assert(texts(roots@).len() == roots@.len());
}

} // verus!
