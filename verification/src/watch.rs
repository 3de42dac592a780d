//! Live watching: what the kernel reports, coalesced into changes.
//!
//! # Debouncing
//!
//! Saving one file produces several reports. They are coalesced per path, and
//! the window restarts on each new report for the path, so a file written
//! continuously gives one change when the writing stops. Paths are compared
//! part by part: `/a/b` and `/a//b` are one path.
//!
//! # Renames
//!
//! A rename arrives as two halves, and pairing them wrongly would merge two
//! files' histories. They are paired only by the id that the kernel gives both
//! of them. A half that finds no partner in time is what it looks like from
//! inside the tree: a source is a deletion, a destination an arrival.
//!
//! # Overflow
//!
//! When the kernel's queue overflows, reports are lost and nobody knows which.
//! That is passed on once, before everything else, so that the caller scans
//! again.
use vstd::prelude::*;

use crate::fspath::{path_key, paths_equal, PathKey};

verus! {

/// How long a path stays quiet before its change is given out, in
/// milliseconds.
pub const DEBOUNCE_MS: u64 = 500;

/// How long half of a rename waits for its partner, in milliseconds.
pub const PENDING_RENAME_TTL_MS: u64 = 1_000;

/// What the watcher decided happened, after coalescing.
#[derive(Debug, Clone, PartialEq, Eq)]
pub enum Change {
    /// A path was created or modified. Which of the two is decided when it is
    /// recorded.
    Touched(String),
    Removed(String),
    /// A path moved, and both ends are known.
    Renamed { from: String, to: String },
    /// Reports were lost. The only safe response is to scan again.
    Overflowed,
}

/// A change over mathematical text.
pub enum ChangeView {
    Touched(Seq<char>),
    Removed(Seq<char>),
    Renamed { from: Seq<char>, to: Seq<char> },
    Overflowed,
}

impl View for Change {
    type V = ChangeView;

    open spec fn view(&self) -> ChangeView {
        match self {
            Change::Touched(p) => ChangeView::Touched(p@),
            Change::Removed(p) => ChangeView::Removed(p@),
            Change::Renamed { from, to } => ChangeView::Renamed { from: from@, to: to@ },
            Change::Overflowed => ChangeView::Overflowed,
        }
    }
}

/// Which half of a rename a report is about.
#[derive(Debug, Clone, Copy, PartialEq, Eq, Structural)]
pub enum RenameMode {
    From,
    To,
    Both,
    Unknown,
}

/// What a report is about.
#[derive(Debug, Clone, Copy, PartialEq, Eq, Structural)]
pub enum RawKind {
    Create,
    Remove,
    Rename(RenameMode),
    /// Any other modification.
    Modify,
    /// Something was read, which is no change.
    Access,
    Any,
    Other,
}

/// One report.
#[derive(Debug)]
pub struct RawEvent {
    pub kind: RawKind,
    pub paths: Vec<String>,
    /// The id that both halves of a rename share.
    pub tracker: Option<usize>,
    /// Whether reports were lost.
    pub need_rescan: bool,
}

struct Pending {
    path: String,
    change: Change,
    last_seen_ms: u64,
}

/// A change that waits for its path to be quiet, under what the path is
/// compared by.
#[verifier::ext_equal]
pub struct PendingView {
    pub path: PathKey,
    pub change: ChangeView,
    pub last_seen_ms: u64,
}

impl View for Pending {
    type V = PendingView;

    closed spec fn view(&self) -> PendingView {
        PendingView {
            path: path_key(self.path@),
            change: self.change@,
            last_seen_ms: self.last_seen_ms,
        }
    }
}

struct Half {
    tracker: usize,
    path: String,
    is_source: bool,
    seen_ms: u64,
}

/// One half of a rename, waiting for the other.
#[verifier::ext_equal]
pub struct HalfView {
    pub tracker: usize,
    pub path: Seq<char>,
    pub is_source: bool,
    pub seen_ms: u64,
}

impl View for Half {
    type V = HalfView;

    closed spec fn view(&self) -> HalfView {
        HalfView {
            tracker: self.tracker,
            path: self.path@,
            is_source: self.is_source,
            seen_ms: self.seen_ms,
        }
    }
}

/// What a watch has taken in and not given out.
#[verifier::ext_equal]
pub struct WatchState {
    /// At most one change per path.
    pub pending: Seq<PendingView>,
    /// At most one half per id.
    pub halves: Seq<HalfView>,
    pub overflowed: bool,
}

/// Whether the change at position `i` is the one for a path.
pub open spec fn is_pending_at(pending: Seq<PendingView>, path: PathKey, i: int) -> bool {
    0 <= i < pending.len() && pending[i].path == path
}

/// The changes with one more: it takes the place of the one for its path, or
/// comes last.
pub open spec fn put_pending(pending: Seq<PendingView>, entry: PendingView) -> Seq<PendingView> {
    if exists|i: int| is_pending_at(pending, entry.path, i) {
        pending.update(choose|i: int| is_pending_at(pending, entry.path, i), entry)
    } else {
        pending.push(entry)
    }
}

/// The changes without the one for a path.
pub open spec fn drop_pending(pending: Seq<PendingView>, path: PathKey) -> Seq<PendingView> {
    if exists|i: int| is_pending_at(pending, path, i) {
        pending.remove(choose|i: int| is_pending_at(pending, path, i))
    } else {
        pending
    }
}

/// No path has two changes.
pub open spec fn paths_unique(pending: Seq<PendingView>) -> bool {
    forall|i: int, j: int|
        0 <= i < j < pending.len() ==> (#[trigger] pending[i]).path != (#[trigger] pending[j]).path
}

/// The path that a change is about: where a renamed file is now.
pub open spec fn about(change: ChangeView) -> Option<PathKey> {
    match change {
        ChangeView::Touched(p) => Some(path_key(p)),
        ChangeView::Removed(p) => Some(path_key(p)),
        ChangeView::Renamed { from, to } => Some(path_key(to)),
        ChangeView::Overflowed => None,
    }
}

/// Every change that waits is about the path it waits under.
pub open spec fn paths_agree(pending: Seq<PendingView>) -> bool {
    forall|i: int|
        0 <= i < pending.len() ==> about((#[trigger] pending[i]).change) == Some(pending[i].path)
}

/// No id has two halves.
pub open spec fn trackers_unique(halves: Seq<HalfView>) -> bool {
    forall|i: int, j: int|
        0 <= i < j < halves.len() ==> (#[trigger] halves[i]).tracker != (
        #[trigger] halves[j]).tracker
}

/// Whether the half at position `i` is the one with an id.
pub open spec fn is_half_at(halves: Seq<HalfView>, tracker: usize, i: int) -> bool {
    0 <= i < halves.len() && halves[i].tracker == tracker
}

impl WatchState {
    pub open spec fn wf(self) -> bool {
        &&& paths_unique(self.pending)
        &&& paths_agree(self.pending)
        &&& trackers_unique(self.halves)
    }

    /// A rename whose both ends are known. What was pending for either end is
    /// superseded: the file's new identity is what counts.
    pub open spec fn with_rename(self, from: Seq<char>, to: Seq<char>, now: u64) -> WatchState {
        WatchState {
            pending: put_pending(
                drop_pending(self.pending, path_key(from)),
                PendingView {
                    path: path_key(to),
                    change: ChangeView::Renamed { from, to },
                    last_seen_ms: now,
                },
            ),
            ..self
        }
    }

    /// One half of a rename: paired with its partner where that waits, and
    /// otherwise kept waiting. A waiting half of the same direction gives way
    /// to it.
    pub open spec fn with_half(
        self,
        tracker: usize,
        path: Seq<char>,
        is_source: bool,
        now: u64,
    ) -> WatchState {
        let half = HalfView { tracker, path, is_source, seen_ms: now };
        if exists|i: int| is_half_at(self.halves, tracker, i) {
            let i = choose|i: int| is_half_at(self.halves, tracker, i);
            let partner = self.halves[i];
            let rest = WatchState { halves: self.halves.remove(i), ..self };
            if partner.is_source != is_source {
                if is_source {
                    rest.with_rename(path, partner.path, now)
                } else {
                    rest.with_rename(partner.path, path, now)
                }
            } else {
                WatchState { halves: rest.halves.push(half), ..rest }
            }
        } else {
            WatchState { halves: self.halves.push(half), ..self }
        }
    }

    /// The same plain change for each of the first `n` paths.
    pub open spec fn with_plain(
        self,
        paths: Seq<String>,
        removed: bool,
        now: u64,
        n: nat,
    ) -> WatchState
        decreases n,
    {
        if n == 0 {
            self
        } else {
            let before = self.with_plain(paths, removed, now, (n - 1) as nat);
            WatchState {
                pending: put_pending(
                    before.pending,
                    plain_pending(paths[n - 1]@, removed, now),
                ),
                ..before
            }
        }
    }
}

/// A path that was removed, or else touched.
pub open spec fn plain_pending(path: Seq<char>, removed: bool, now: u64) -> PendingView {
    PendingView {
        path: path_key(path),
        change: if removed {
            ChangeView::Removed(path)
        } else {
            ChangeView::Touched(path)
        },
        last_seen_ms: now,
    }
}

/// Whether a report can be taken as a rename: both ends in one report, or one
/// end with the id to pair it by.
pub open spec fn is_rename(event: RawEvent) -> bool {
    match event.kind {
        RawKind::Rename(RenameMode::Both) => event.paths.len() >= 2,
        RawKind::Rename(RenameMode::From) => event.paths.len() >= 1 && event.tracker is Some,
        RawKind::Rename(RenameMode::To) => event.paths.len() >= 1 && event.tracker is Some,
        _ => false,
    }
}

/// A watch with one more report taken in.
pub open spec fn absorbed(s: WatchState, event: RawEvent, now: u64) -> WatchState {
    if event.kind == RawKind::Other && event.need_rescan {
        WatchState { overflowed: true, ..s }
    } else if is_rename(event) {
        if event.kind == RawKind::Rename(RenameMode::Both) {
            s.with_rename(event.paths[0]@, event.paths[1]@, now)
        } else {
            s.with_half(
                event.tracker->0,
                event.paths[0]@,
                event.kind == RawKind::Rename(RenameMode::From),
                now,
            )
        }
    } else if event.kind == RawKind::Access {
        s
    } else {
        s.with_plain(event.paths@, event.kind == RawKind::Remove, now, event.paths@.len())
    }
}

/// Whether so much time has passed.
pub open spec fn has_passed(since: u64, now: u64, span: u64) -> bool {
    now - since >= span
}

/// A watch with the first `n` halves looked at: those that waited too long are
/// plain changes now.
pub open spec fn halves_expired(s: WatchState, now: u64, n: nat) -> WatchState
    decreases n,
{
    if n == 0 {
        WatchState { halves: Seq::empty(), ..s }
    } else {
        let before = halves_expired(s, now, (n - 1) as nat);
        let half = s.halves[n - 1];
        if has_passed(half.seen_ms, now, PENDING_RENAME_TTL_MS) {
            WatchState {
                pending: put_pending(
                    before.pending,
                    plain_pending(half.path, half.is_source, now),
                ),
                ..before
            }
        } else {
            WatchState { halves: before.halves.push(half), ..before }
        }
    }
}

/// The changes among the first `n` whose path has been quiet long enough.
pub open spec fn quiet_changes(pending: Seq<PendingView>, now: u64, n: nat) -> Seq<ChangeView>
    decreases n,
{
    if n == 0 {
        Seq::empty()
    } else {
        let before = quiet_changes(pending, now, (n - 1) as nat);
        if has_passed(pending[n - 1].last_seen_ms, now, DEBOUNCE_MS) {
            before.push(pending[n - 1].change)
        } else {
            before
        }
    }
}

/// The changes among the first `n` whose path has not been quiet long enough.
pub open spec fn busy_pending(pending: Seq<PendingView>, now: u64, n: nat) -> Seq<PendingView>
    decreases n,
{
    if n == 0 {
        Seq::empty()
    } else {
        let before = busy_pending(pending, now, (n - 1) as nat);
        if has_passed(pending[n - 1].last_seen_ms, now, DEBOUNCE_MS) {
            before
        } else {
            before.push(pending[n - 1])
        }
    }
}

/// What a watch gives out at a given time.
pub open spec fn given_out(s: WatchState, now: u64) -> Seq<ChangeView> {
    let settled = halves_expired(s, now, s.halves.len());
    let lost = if s.overflowed {
        seq![ChangeView::Overflowed]
    } else {
        Seq::empty()
    };
    lost + quiet_changes(settled.pending, now, settled.pending.len())
}

/// What a watch keeps when it has given out what was due.
pub open spec fn kept(s: WatchState, now: u64) -> WatchState {
    let settled = halves_expired(s, now, s.halves.len());
    WatchState {
        pending: busy_pending(settled.pending, now, settled.pending.len()),
        halves: settled.halves,
        overflowed: false,
    }
}

/// Coalesces reports into changes.
pub struct Watch {
    pending: Vec<Pending>,
    halves: Vec<Half>,
    overflowed: bool,
}

spec fn pending_views(v: Seq<Pending>) -> Seq<PendingView> {
    v.map_values(|p: Pending| p@)
}

spec fn half_views(v: Seq<Half>) -> Seq<HalfView> {
    v.map_values(|h: Half| h@)
}

impl View for Watch {
    type V = WatchState;

    closed spec fn view(&self) -> WatchState {
        WatchState {
            pending: pending_views(self.pending@),
            halves: half_views(self.halves@),
            overflowed: self.overflowed,
        }
    }
}

/// Put a change in its place.
fn put(pending: &mut Vec<Pending>, entry: Pending)
    requires
        paths_unique(pending_views(old(pending)@)),
        paths_agree(pending_views(old(pending)@)),
        about(entry@.change) == Some(entry@.path),
    ensures
        pending_views(final(pending)@) == put_pending(pending_views(old(pending)@), entry@),
        paths_unique(pending_views(final(pending)@)),
        paths_agree(pending_views(final(pending)@)),
{
    let ghost before = pending_views(pending@);
    let ghost view = entry@;
    let mut k: usize = 0;
    while k < pending.len()
        invariant
            0 <= k <= pending.len(),
            before == pending_views(pending@),
            pending@ == old(pending)@,
            view == entry@,
            paths_unique(before),
            paths_agree(before),
            about(view.change) == Some(view.path),
            forall|j: int| 0 <= j < k ==> (#[trigger] before[j]).path != view.path,
        decreases pending.len() - k,
    {
        if paths_equal(pending[k].path.as_str(), entry.path.as_str()) {
            proof {
                assert(is_pending_at(before, view.path, k as int));
                let c = choose|i: int| is_pending_at(before, view.path, i);
                if c < k {
                    assert(before[c].path != view.path);
                }
                if c > k {
                    assert(before[k as int].path != before[c].path);
                }
            }
            pending.set(k, entry);
            proof {
                assert(pending_views(pending@) =~= before.update(k as int, view));
                let after = pending_views(pending@);
                assert forall|i: int, j: int| 0 <= i < j < after.len() implies (
                #[trigger] after[i]).path != (#[trigger] after[j]).path by {
                    assert(before[i].path != before[j].path);
                }
                assert forall|i: int| 0 <= i < after.len() implies about(
                    (#[trigger] after[i]).change,
                ) == Some(after[i].path) by {
                    if i != k {
                        assert(about(before[i].change) == Some(before[i].path));
                    }
                }
            }
            return;
        }
        assert(before[k as int].path != view.path);
        k = k + 1;
    }
    pending.push(entry);
    proof {
        let after = pending_views(pending@);
        assert(after =~= before.push(view));
        assert forall|i: int| 0 <= i < after.len() implies about((#[trigger] after[i]).change)
            == Some(after[i].path) by {
            if i < before.len() {
                assert(about(before[i].change) == Some(before[i].path));
            }
        }
    }
}

/// Take the change for a path out.
fn take_out(pending: &mut Vec<Pending>, path: &str)
    requires
        paths_unique(pending_views(old(pending)@)),
        paths_agree(pending_views(old(pending)@)),
    ensures
        pending_views(final(pending)@) == drop_pending(pending_views(old(pending)@), path_key(path@)),
        paths_unique(pending_views(final(pending)@)),
        paths_agree(pending_views(final(pending)@)),
{
    let ghost before = pending_views(pending@);
    let mut k: usize = 0;
    while k < pending.len()
        invariant
            0 <= k <= pending.len(),
            before == pending_views(pending@),
            pending@ == old(pending)@,
            paths_unique(before),
            paths_agree(before),
            forall|j: int| 0 <= j < k ==> (#[trigger] before[j]).path != path_key(path@),
        decreases pending.len() - k,
    {
        if paths_equal(pending[k].path.as_str(), path) {
            proof {
                assert(is_pending_at(before, path_key(path@), k as int));
                let c = choose|i: int| is_pending_at(before, path_key(path@), i);
                if c < k {
                    assert(before[c].path != path_key(path@));
                }
                if c > k {
                    assert(before[k as int].path != before[c].path);
                }
            }
            let dropped = pending.remove(k);
            proof {
                assert(pending_views(pending@) =~= before.remove(k as int));
                let after = pending_views(pending@);
                assert forall|i: int, j: int| 0 <= i < j < after.len() implies (
                #[trigger] after[i]).path != (#[trigger] after[j]).path by {
                    let a = if i < k {
                        i
                    } else {
                        i + 1
                    };
                    let b = if j < k {
                        j
                    } else {
                        j + 1
                    };
                    assert(before[a].path != before[b].path);
                }
                assert forall|i: int| 0 <= i < after.len() implies about(
                    (#[trigger] after[i]).change,
                ) == Some(after[i].path) by {
                    let a = if i < k {
                        i
                    } else {
                        i + 1
                    };
                    assert(about(before[a].change) == Some(before[a].path));
                }
            }
            return;
        }
        assert(before[k as int].path != path_key(path@));
        k = k + 1;
    }
}

impl Watch {
    /// A watch that has taken nothing in.
    pub fn new() -> (r: Watch)
        ensures
            r@.wf(),
            r@ == (WatchState {
                pending: Seq::empty(),
                halves: Seq::empty(),
                overflowed: false,
            }),
    {
        let r = Watch { pending: Vec::new(), halves: Vec::new(), overflowed: false };
        assert(r@.pending =~= Seq::<PendingView>::empty());
        assert(r@.halves =~= Seq::<HalfView>::empty());
        r
    }

    /// Take note that reports were lost.
    pub fn note_overflow(&mut self)
        ensures
            final(self)@ == (WatchState { overflowed: true, ..old(self)@ }),
    {
        self.overflowed = true;
        assert(self@ =~= WatchState { overflowed: true, ..old(self)@ });
    }

    fn emit_rename(&mut self, from: String, to: String, now_ms: u64)
        requires
            old(self)@.wf(),
        ensures
            final(self)@ == old(self)@.with_rename(from@, to@, now_ms),
            final(self)@.wf(),
    {
        take_out(&mut self.pending, from.as_str());
        let path = to.clone();
        let entry = Pending {
            path,
            change: Change::Renamed { from, to },
            last_seen_ms: now_ms,
        };
        put(&mut self.pending, entry);
        assert(self@ =~= old(self)@.with_rename(from@, to@, now_ms));
    }

    fn absorb_half(&mut self, tracker: usize, path: String, is_source: bool, now_ms: u64)
        requires
            old(self)@.wf(),
        ensures
            final(self)@ == old(self)@.with_half(tracker, path@, is_source, now_ms),
            final(self)@.wf(),
    {
        let ghost s = self@;
        let ghost before = half_views(self.halves@);
        let mut k: usize = 0;
        while k < self.halves.len() && self.halves[k].tracker != tracker
            invariant
                0 <= k <= self.halves.len(),
                self@ == s,
                *self == *old(self),
                before == half_views(self.halves@),
                forall|j: int| 0 <= j < k ==> (#[trigger] before[j]).tracker != tracker,
            decreases self.halves.len() - k,
        {
            assert(before[k as int].tracker != tracker);
            k = k + 1;
        }
        if k < self.halves.len() {
            proof {
                assert(is_half_at(before, tracker, k as int));
                let c = choose|i: int| is_half_at(before, tracker, i);
                if c < k {
                    assert(before[c].tracker != tracker);
                }
                if c > k {
                    assert(before[k as int].tracker != before[c].tracker);
                }
            }
            let partner = self.halves.remove(k);
            let ghost rest = WatchState { halves: before.remove(k as int), ..s };
            proof {
                assert(half_views(self.halves@) =~= before.remove(k as int));
                assert(self@ =~= rest);
                assert forall|i: int, j: int| 0 <= i < j < rest.halves.len() implies (
                #[trigger] rest.halves[i]).tracker != (#[trigger] rest.halves[j]).tracker by {
                    let a = if i < k {
                        i
                    } else {
                        i + 1
                    };
                    let b = if j < k {
                        j
                    } else {
                        j + 1
                    };
                    assert(before[a].tracker != before[b].tracker);
                }
            }
            if partner.is_source != is_source {
                if is_source {
                    self.emit_rename(path, partner.path, now_ms);
                } else {
                    self.emit_rename(partner.path, path, now_ms);
                }
            } else {
                self.halves.push(Half { tracker, path, is_source, seen_ms: now_ms });
                proof {
                    let half = HalfView { tracker, path: path@, is_source, seen_ms: now_ms };
                    assert(half_views(self.halves@) =~= rest.halves.push(half));
                    assert(self@ =~= s.with_half(tracker, path@, is_source, now_ms));
                    assert forall|i: int, j: int| 0 <= i < j < self@.halves.len() implies (
                    #[trigger] self@.halves[i]).tracker != (
                    #[trigger] self@.halves[j]).tracker by {
                        if j == rest.halves.len() {
                            let a = if i < k {
                                i
                            } else {
                                i + 1
                            };
                            if a < k {
                                assert(before[a].tracker != before[k as int].tracker);
                            } else {
                                assert(before[k as int].tracker != before[a].tracker);
                            }
                        } else {
                            assert(rest.halves[i].tracker != rest.halves[j].tracker);
                        }
                    }
                }
            }
        } else {
            self.halves.push(Half { tracker, path, is_source, seen_ms: now_ms });
            proof {
                let half = HalfView { tracker, path: path@, is_source, seen_ms: now_ms };
                assert(half_views(self.halves@) =~= before.push(half));
                assert(!(exists|i: int| is_half_at(before, tracker, i)));
                assert(self@ =~= s.with_half(tracker, path@, is_source, now_ms));
            }
        }
    }

    /// Fold a rename in, where the report can be taken as one.
    fn absorb_rename(&mut self, event: &RawEvent, now_ms: u64) -> (r: bool)
        requires
            old(self)@.wf(),
        ensures
            final(self)@.wf(),
            r == is_rename(*event),
            !r ==> final(self)@ == old(self)@,
            r && event.kind == RawKind::Rename(RenameMode::Both) ==> final(self)@ == old(
                self,
            )@.with_rename(event.paths[0]@, event.paths[1]@, now_ms),
            r && event.kind != RawKind::Rename(RenameMode::Both) ==> final(self)@ == old(
                self,
            )@.with_half(
                event.tracker->0,
                event.paths[0]@,
                event.kind == RawKind::Rename(RenameMode::From),
                now_ms,
            ),
    {
        match event.kind {
            RawKind::Rename(mode) => match mode {
                RenameMode::Both => {
                    if event.paths.len() >= 2 {
                        self.emit_rename(event.paths[0].clone(), event.paths[1].clone(), now_ms);
                        true
                    } else {
                        false
                    }
                },
                RenameMode::From => {
                    if event.paths.len() == 0 {
                        return false;
                    }
                    match event.tracker {
                        None => false,
                        Some(tracker) => {
                            self.absorb_half(tracker, event.paths[0].clone(), true, now_ms);
                            true
                        },
                    }
                },
                RenameMode::To => {
                    if event.paths.len() == 0 {
                        return false;
                    }
                    match event.tracker {
                        None => false,
                        Some(tracker) => {
                            self.absorb_half(tracker, event.paths[0].clone(), false, now_ms);
                            true
                        },
                    }
                },
                RenameMode::Unknown => false,
            },
            _ => false,
        }
    }

    /// Fold one report in.
    pub fn absorb(&mut self, event: &RawEvent, now_ms: u64)
        requires
            old(self)@.wf(),
        ensures
            final(self)@ == absorbed(old(self)@, *event, now_ms),
            final(self)@.wf(),
    {
        if event.kind == RawKind::Other && event.need_rescan {
            self.note_overflow();
            return;
        }
        if self.absorb_rename(event, now_ms) {
            return;
        }
        if event.kind == RawKind::Access {
            return;
        }
        let removed = event.kind == RawKind::Remove;
        let ghost s = self@;
        let mut k: usize = 0;
        while k < event.paths.len()
            invariant
                0 <= k <= event.paths.len(),
                self@.wf(),
                self@ == s.with_plain(event.paths@, removed, now_ms, k as nat),
            decreases event.paths.len() - k,
        {
            let ghost before = self@;
            let path = event.paths[k].clone();
            let change = if removed {
                Change::Removed(path.clone())
            } else {
                Change::Touched(path.clone())
            };
            put(&mut self.pending, Pending { path, change, last_seen_ms: now_ms });
            k = k + 1;
            assert(self@ =~= s.with_plain(event.paths@, removed, now_ms, k as nat));
        }
    }

    /// Turn halves that waited too long into plain changes.
    fn expire_pending_renames(&mut self, now_ms: u64)
        requires
            old(self)@.wf(),
        ensures
            final(self)@ == halves_expired(old(self)@, now_ms, old(self)@.halves.len()),
            final(self)@.wf(),
    {
        let ghost s = self@;
        let mut waiting: Vec<Half> = Vec::new();
        std::mem::swap(&mut waiting, &mut self.halves);
        let ghost all = half_views(waiting@);
        assert(all =~= s.halves);
        assert(self@ =~= halves_expired(s, now_ms, 0));
        let mut k: usize = 0;
        while k < waiting.len()
            invariant
                0 <= k <= waiting.len(),
                all == half_views(waiting@),
                all == s.halves,
                trackers_unique(s.halves),
                self@.wf(),
                self@ == halves_expired(s, now_ms, k as nat),
                forall|i: int|
                    0 <= i < self@.halves.len() ==> exists|j: int|
                        0 <= j < k && (#[trigger] self@.halves[i]).tracker == s.halves[j].tracker,
            decreases waiting.len() - k,
        {
            let half = &waiting[k];
            let ghost before = self@;
            assert(all[k as int] == half@);
            if now_ms >= half.seen_ms && now_ms - half.seen_ms >= PENDING_RENAME_TTL_MS {
                let path = half.path.clone();
                let change = if half.is_source {
                    Change::Removed(path.clone())
                } else {
                    Change::Touched(path.clone())
                };
                put(&mut self.pending, Pending { path, change, last_seen_ms: now_ms });
                assert(self@ =~= halves_expired(s, now_ms, (k + 1) as nat));
            } else {
                self.halves.push(
                    Half {
                        tracker: half.tracker,
                        path: half.path.clone(),
                        is_source: half.is_source,
                        seen_ms: half.seen_ms,
                    },
                );
                proof {
                    assert(half_views(self.halves@) =~= before.halves.push(all[k as int]));
                    assert(self@ =~= halves_expired(s, now_ms, (k + 1) as nat));
                    assert forall|i: int, j: int| 0 <= i < j < self@.halves.len() implies (
                    #[trigger] self@.halves[i]).tracker != (
                    #[trigger] self@.halves[j]).tracker by {
                        if j == before.halves.len() {
                            let m = choose|m: int|
                                0 <= m < k && before.halves[i].tracker == s.halves[m].tracker;
                            assert(s.halves[m].tracker != s.halves[k as int].tracker);
                        } else {
                            assert(before.halves[i].tracker != before.halves[j].tracker);
                        }
                    }
                    assert forall|i: int| 0 <= i < self@.halves.len() implies exists|j: int|
                        0 <= j < k + 1 && (#[trigger] self@.halves[i]).tracker
                            == s.halves[j].tracker by {
                        if i == before.halves.len() {
                            assert(self@.halves[i].tracker == s.halves[k as int].tracker);
                        } else {
                            let j = choose|j: int|
                                0 <= j < k && before.halves[i].tracker == s.halves[j].tracker;
                            assert(self@.halves[i].tracker == s.halves[j].tracker);
                        }
                    }
                }
            }
            k = k + 1;
        }
    }

    /// Give out the changes whose path has been quiet long enough, an overflow
    /// first.
    pub fn take_expired(&mut self, now_ms: u64) -> (r: Vec<Change>)
        requires
            old(self)@.wf(),
        ensures
            r@.map_values(|c: Change| c@) == given_out(old(self)@, now_ms),
            final(self)@ == kept(old(self)@, now_ms),
            final(self)@.wf(),
    {
        let ghost s = self@;
        self.expire_pending_renames(now_ms);
        let ghost settled = self@;
        let mut out: Vec<Change> = Vec::new();
        if self.overflowed {
            self.overflowed = false;
            out.push(Change::Overflowed);
        }
        let ghost lost = out@.map_values(|c: Change| c@);
        assert(lost =~= (if s.overflowed {
            seq![ChangeView::Overflowed]
        } else {
            Seq::empty()
        })) by {
            lemma_expired_keeps_flag(s, now_ms, s.halves.len());
        }
        let mut waiting: Vec<Pending> = Vec::new();
        std::mem::swap(&mut waiting, &mut self.pending);
        let ghost all = pending_views(waiting@);
        assert(all == settled.pending);
        let mut k: usize = 0;
        assert(pending_views(self.pending@) =~= busy_pending(all, now_ms, 0));
        assert(out@.map_values(|c: Change| c@) =~= lost + quiet_changes(all, now_ms, 0));
        while k < waiting.len()
            invariant
                0 <= k <= waiting.len(),
                all == pending_views(waiting@),
                paths_unique(all),
                paths_agree(all),
                pending_views(self.pending@) == busy_pending(all, now_ms, k as nat),
                out@.map_values(|c: Change| c@) =~= lost + quiet_changes(all, now_ms, k as nat),
                half_views(self.halves@) == settled.halves,
                !self.overflowed,
            decreases waiting.len() - k,
        {
            let entry = &waiting[k];
            assert(all[k as int] == entry@);
            let ghost given = out@.map_values(|c: Change| c@);
            let ghost busy = pending_views(self.pending@);
            if now_ms >= entry.last_seen_ms && now_ms - entry.last_seen_ms >= DEBOUNCE_MS {
                let change = copy_change(&entry.change);
                out.push(change);
                assert(out@.map_values(|c: Change| c@) =~= given.push(entry.change@));
            } else {
                self.pending.push(
                    Pending {
                        path: entry.path.clone(),
                        change: copy_change(&entry.change),
                        last_seen_ms: entry.last_seen_ms,
                    },
                );
                assert(pending_views(self.pending@) =~= busy.push(all[k as int]));
            }
            k = k + 1;
        }
        proof {
            lemma_busy_unique(all, now_ms, all.len());
            lemma_busy_from(all, now_ms, all.len());
            assert(self@ =~= kept(s, now_ms));
        }
        out
    }

    /// Changes taken in and not given out.
    pub fn pending_count(&self) -> (r: usize)
        ensures
            r == self@.pending.len(),
    {
        self.pending.len()
    }

    /// Halves of renames that wait for their partner.
    pub fn waiting_halves(&self) -> (r: usize)
        ensures
            r == self@.halves.len(),
    {
        self.halves.len()
    }
}

fn copy_change(change: &Change) -> (r: Change)
    ensures
        r@ == change@,
{
    match change {
        Change::Touched(p) => Change::Touched(p.clone()),
        Change::Removed(p) => Change::Removed(p.clone()),
        Change::Renamed { from, to } => Change::Renamed { from: from.clone(), to: to.clone() },
        Change::Overflowed => Change::Overflowed,
    }
}

proof fn lemma_expired_keeps_flag(s: WatchState, now: u64, n: nat)
    ensures
        halves_expired(s, now, n).overflowed == s.overflowed,
    decreases n,
{
    if n > 0 {
        lemma_expired_keeps_flag(s, now, (n - 1) as nat);
    }
}

/// Every change kept is one of those there were.
proof fn lemma_busy_from(pending: Seq<PendingView>, now: u64, n: nat)
    requires
        n <= pending.len(),
    ensures
        forall|i: int|
            0 <= i < busy_pending(pending, now, n).len() ==> exists|j: int|
                0 <= j < n && #[trigger] busy_pending(pending, now, n)[i] == pending[j]
                    && !has_passed(pending[j].last_seen_ms, now, DEBOUNCE_MS),
    decreases n,
{
    if n > 0 {
        lemma_busy_from(pending, now, (n - 1) as nat);
        let before = busy_pending(pending, now, (n - 1) as nat);
        let after = busy_pending(pending, now, n);
        assert forall|i: int| 0 <= i < after.len() implies exists|j: int|
            0 <= j < n && #[trigger] after[i] == pending[j] && !has_passed(
            pending[j].last_seen_ms,
            now,
            DEBOUNCE_MS,
        ) by {
            if i < before.len() {
                assert(after[i] == before[i]);
                let j = choose|j: int| 0 <= j < n - 1 && before[i] == pending[j];
                assert(after[i] == pending[j]);
            } else {
                assert(after[i] == pending[n - 1]);
            }
        }
    }
}

proof fn lemma_busy_unique(pending: Seq<PendingView>, now: u64, n: nat)
    requires
        n <= pending.len(),
        paths_unique(pending),
    ensures
        paths_unique(busy_pending(pending, now, n)),
    decreases n,
{
    if n > 0 {
        lemma_busy_unique(pending, now, (n - 1) as nat);
        lemma_busy_from(pending, now, (n - 1) as nat);
        let before = busy_pending(pending, now, (n - 1) as nat);
        let after = busy_pending(pending, now, n);
        assert forall|i: int, j: int| 0 <= i < j < after.len() implies (#[trigger] after[i]).path
            != (#[trigger] after[j]).path by {
            if j < before.len() {
                assert(before[i].path != before[j].path);
            } else {
                let k = choose|k: int| 0 <= k < n - 1 && before[i] == pending[k];
                assert(pending[k].path != pending[n - 1].path);
            }
        }
    }
}

/// Every change given out is one of those that waited, quiet long enough.
proof fn lemma_quiet_from(pending: Seq<PendingView>, now: u64, n: nat)
    requires
        n <= pending.len(),
        paths_unique(pending),
        paths_agree(pending),
    ensures
        forall|i: int|
            0 <= i < quiet_changes(pending, now, n).len() ==> exists|j: int|
                0 <= j < n && #[trigger] quiet_changes(pending, now, n)[i] == pending[j].change
                    && has_passed(pending[j].last_seen_ms, now, DEBOUNCE_MS),
        forall|i: int, j: int|
            0 <= i < j < quiet_changes(pending, now, n).len() ==> about(
                #[trigger] quiet_changes(pending, now, n)[i],
            ) != about(#[trigger] quiet_changes(pending, now, n)[j]),
        forall|j: int|
            0 <= j < n && has_passed((#[trigger] pending[j]).last_seen_ms, now, DEBOUNCE_MS)
                ==> quiet_changes(pending, now, n).contains(pending[j].change),
    decreases n,
{
    if n > 0 {
        lemma_quiet_from(pending, now, (n - 1) as nat);
        let before = quiet_changes(pending, now, (n - 1) as nat);
        let after = quiet_changes(pending, now, n);
        let quiet = has_passed(pending[n - 1].last_seen_ms, now, DEBOUNCE_MS);
        assert forall|i: int| 0 <= i < after.len() implies exists|j: int|
            0 <= j < n && #[trigger] after[i] == pending[j].change && has_passed(
                pending[j].last_seen_ms,
                now,
                DEBOUNCE_MS,
            ) by {
            if i < before.len() {
                assert(after[i] == before[i]);
                let j = choose|j: int|
                    0 <= j < n - 1 && before[i] == pending[j].change && has_passed(
                        pending[j].last_seen_ms,
                        now,
                        DEBOUNCE_MS,
                    );
                assert(after[i] == pending[j].change);
            } else {
                assert(after[i] == pending[n - 1].change);
            }
        }
        assert forall|i: int, j: int| 0 <= i < j < after.len() implies about(#[trigger] after[i])
            != about(#[trigger] after[j]) by {
            if j < before.len() {
                assert(after[i] == before[i] && after[j] == before[j]);
            } else {
                assert(after[i] == before[i]);
                let k = choose|k: int|
                    0 <= k < n - 1 && before[i] == pending[k].change && has_passed(
                        pending[k].last_seen_ms,
                        now,
                        DEBOUNCE_MS,
                    );
                assert(about(pending[k].change) == Some(pending[k].path));
                assert(about(pending[n - 1].change) == Some(pending[n - 1].path));
                assert(pending[k].path != pending[n - 1].path);
            }
        }
        assert forall|j: int|
            0 <= j < n && has_passed(
                (#[trigger] pending[j]).last_seen_ms,
                now,
                DEBOUNCE_MS,
            ) implies after.contains(pending[j].change) by {
            if j < n - 1 {
                assert(before.contains(pending[j].change));
                let k = choose|k: int| 0 <= k < before.len() && before[k] == pending[j].change;
                assert(after[k] == pending[j].change);
            } else {
                assert(after[before.len() as int] == pending[j].change);
            }
        }
    }
}

/// Putting a change in keeps the changes coherent.
proof fn lemma_put(pending: Seq<PendingView>, entry: PendingView)
    requires
        paths_unique(pending),
        paths_agree(pending),
        about(entry.change) == Some(entry.path),
    ensures
        ({
            let after = put_pending(pending, entry);
            &&& paths_unique(after)
            &&& paths_agree(after)
            &&& after.contains(entry)
            &&& forall|i: int|
                0 <= i < after.len() ==> #[trigger] after[i] == entry || (after[i].path
                    != entry.path && pending.contains(after[i]))
            &&& forall|i: int|
                0 <= i < pending.len() && (#[trigger] pending[i]).path != entry.path
                    ==> after.contains(pending[i])
        }),
{
    let after = put_pending(pending, entry);
    if exists|i: int| is_pending_at(pending, entry.path, i) {
        let k = choose|i: int| is_pending_at(pending, entry.path, i);
        assert(after[k] == entry);
        assert forall|i: int, j: int| 0 <= i < j < after.len() implies (#[trigger] after[i]).path
            != (#[trigger] after[j]).path by {
            assert(pending[i].path != pending[j].path);
        }
        assert forall|i: int| 0 <= i < after.len() implies #[trigger] after[i] == entry || (
        after[i].path != entry.path && pending.contains(after[i])) by {
            if i < k {
                assert(after[i] == pending[i]);
                assert(pending[i].path != pending[k].path);
            } else if i > k {
                assert(after[i] == pending[i]);
                assert(pending[k].path != pending[i].path);
            }
        }
        assert forall|i: int|
            0 <= i < pending.len() && (#[trigger] pending[i]).path
                != entry.path implies after.contains(pending[i]) by {
            assert(after[i] == pending[i]);
        }
        assert forall|i: int| 0 <= i < after.len() implies about((#[trigger] after[i]).change)
            == Some(after[i].path) by {
            if i != k {
                assert(about(pending[i].change) == Some(pending[i].path));
            }
        }
    } else {
        assert(after[pending.len() as int] == entry);
        assert forall|i: int| 0 <= i < pending.len() implies (#[trigger] pending[i]).path
            != entry.path by {
            if pending[i].path == entry.path {
                assert(is_pending_at(pending, entry.path, i));
            }
        }
        assert forall|i: int| 0 <= i < after.len() implies #[trigger] after[i] == entry || (
        after[i].path != entry.path && pending.contains(after[i])) by {
            if i < pending.len() {
                assert(after[i] == pending[i]);
            }
        }
        assert forall|i: int|
            0 <= i < pending.len() && (#[trigger] pending[i]).path
                != entry.path implies after.contains(pending[i]) by {
            assert(after[i] == pending[i]);
        }
        assert forall|i: int| 0 <= i < after.len() implies about((#[trigger] after[i]).change)
            == Some(after[i].path) by {
            if i < pending.len() {
                assert(about(pending[i].change) == Some(pending[i].path));
            }
        }
    }
}

/// Expiring halves keeps the changes coherent; each change is one there was or
/// is as new as now.
proof fn lemma_expired(s: WatchState, now: u64, n: nat)
    requires
        s.wf(),
        n <= s.halves.len(),
    ensures
        ({
            let after = halves_expired(s, now, n);
            &&& paths_unique(after.pending)
            &&& paths_agree(after.pending)
            &&& after.overflowed == s.overflowed
            &&& forall|i: int|
                0 <= i < after.pending.len() ==> s.pending.contains(#[trigger] after.pending[i])
                    || after.pending[i].last_seen_ms == now
        }),
    decreases n,
{
    if n > 0 {
        lemma_expired(s, now, (n - 1) as nat);
        let before = halves_expired(s, now, (n - 1) as nat);
        let half = s.halves[n - 1];
        if has_passed(half.seen_ms, now, PENDING_RENAME_TTL_MS) {
            lemma_put(before.pending, plain_pending(half.path, half.is_source, now));
            let after = halves_expired(s, now, n);
            assert forall|i: int| 0 <= i < after.pending.len() implies s.pending.contains(
                #[trigger] after.pending[i],
            ) || after.pending[i].last_seen_ms == now by {
                if after.pending[i].last_seen_ms != now {
                    assert(before.pending.contains(after.pending[i]));
                    let j = choose|j: int|
                        0 <= j < before.pending.len() && before.pending[j] == after.pending[i];
                    assert(s.pending.contains(before.pending[j]));
                }
            }
        }
    } else {
        assert forall|i: int| 0 <= i < s.pending.len() implies s.pending.contains(
            #[trigger] s.pending[i],
        ) by {}
    }
}

// Laws.

/// An overflow is given out once, before everything else, and never again
/// unless reports are lost again.
pub proof fn an_overflow_is_reported_once(s: WatchState, now: u64)
    requires
        s.wf(),
    ensures
        s.overflowed <==> given_out(s, now).contains(ChangeView::Overflowed),
        s.overflowed ==> given_out(s, now)[0] == ChangeView::Overflowed,
        forall|i: int|
            0 < i < given_out(s, now).len() ==> #[trigger] given_out(s, now)[i]
                != ChangeView::Overflowed,
        !kept(s, now).overflowed,
{
    lemma_expired(s, now, s.halves.len());
    let settled = halves_expired(s, now, s.halves.len());
    lemma_quiet_from(settled.pending, now, settled.pending.len());
    let quiet = quiet_changes(settled.pending, now, settled.pending.len());
    let out = given_out(s, now);
    let shift: int = if s.overflowed {
        1
    } else {
        0
    };
    assert forall|i: int| shift <= i < out.len() implies #[trigger] out[i]
        != ChangeView::Overflowed by {
        assert(out[i] == quiet[i - shift]);
        let j = choose|j: int|
            0 <= j < settled.pending.len() && quiet[i - shift] == settled.pending[j].change
                && has_passed(settled.pending[j].last_seen_ms, now, DEBOUNCE_MS);
        assert(about(settled.pending[j].change) == Some(settled.pending[j].path));
    }
    if s.overflowed {
        assert(out[0] == ChangeView::Overflowed);
    }
}

/// However many reports there were about a path, what is given out at one time
/// holds at most one change about it.
pub proof fn a_burst_coalesces_to_one_change(s: WatchState, now: u64)
    requires
        s.wf(),
    ensures
        forall|i: int, j: int|
            0 <= i < j < given_out(s, now).len() ==> about(#[trigger] given_out(s, now)[i])
                != about(#[trigger] given_out(s, now)[j]),
{
    lemma_expired(s, now, s.halves.len());
    let settled = halves_expired(s, now, s.halves.len());
    lemma_quiet_from(settled.pending, now, settled.pending.len());
    an_overflow_is_reported_once(s, now);
    let quiet = quiet_changes(settled.pending, now, settled.pending.len());
    let out = given_out(s, now);
    let shift: int = if s.overflowed {
        1
    } else {
        0
    };
    assert forall|i: int, j: int| 0 <= i < j < out.len() implies about(#[trigger] out[i]) != about(
        #[trigger] out[j],
    ) by {
        assert(out[j] == quiet[j - shift]);
        if i >= shift {
            assert(out[i] == quiet[i - shift]);
        } else {
            assert(out[i] == ChangeView::Overflowed);
            assert(out[j] != ChangeView::Overflowed);
        }
    }
}

/// Each report restarts the window: a path that was reported at `seen` is not
/// given out before it was quiet for the whole of it, and it is given out then.
pub proof fn a_path_is_given_out_when_it_is_quiet(
    s: WatchState,
    path: Seq<char>,
    removed: bool,
    seen: u64,
    now: u64,
)
    requires
        s.wf(),
        s.halves.len() == 0,
    ensures
        ({
            let change = plain_pending(path, removed, seen).change;
            let after = WatchState {
                pending: put_pending(s.pending, plain_pending(path, removed, seen)),
                ..s
            };
            &&& now - seen < DEBOUNCE_MS ==> forall|i: int|
                0 <= i < given_out(after, now).len() ==> about(
                    #[trigger] given_out(after, now)[i],
                ) != Some(path_key(path))
            &&& now - seen >= DEBOUNCE_MS ==> given_out(after, now).contains(change)
        }),
{
    let entry = plain_pending(path, removed, seen);
    lemma_put(s.pending, entry);
    let after = WatchState { pending: put_pending(s.pending, entry), ..s };
    assert(after.wf());
    let settled = halves_expired(after, now, after.halves.len());
    assert(settled.pending == after.pending);
    lemma_quiet_from(after.pending, now, after.pending.len());
    let quiet = quiet_changes(after.pending, now, after.pending.len());
    let out = given_out(after, now);
    let shift: int = if s.overflowed {
        1
    } else {
        0
    };
    if now - seen < DEBOUNCE_MS {
        assert forall|i: int| 0 <= i < out.len() implies about(#[trigger] out[i]) != Some(
            path_key(path),
        ) by {
            if i >= shift {
                assert(out[i] == quiet[i - shift]);
                let j = choose|j: int|
                    0 <= j < after.pending.len() && quiet[i - shift] == after.pending[j].change
                        && has_passed(after.pending[j].last_seen_ms, now, DEBOUNCE_MS);
                assert(about(after.pending[j].change) == Some(after.pending[j].path));
                assert(after.pending[j] != entry);
            }
        }
    } else {
        let k = choose|k: int| 0 <= k < after.pending.len() && after.pending[k] == entry;
        assert(quiet.contains(after.pending[k].change));
        let q = choose|q: int| 0 <= q < quiet.len() && quiet[q] == entry.change;
        assert(out[q + shift] == entry.change);
    }
}

/// The two halves of a rename are paired by their id in whichever order they
/// come, and nothing is left waiting under that id.
pub proof fn halves_are_paired_by_their_id(
    s: WatchState,
    tracker: usize,
    from: Seq<char>,
    to: Seq<char>,
    first: u64,
    second: u64,
)
    requires
        s.wf(),
        forall|i: int| !is_half_at(s.halves, tracker, i),
    ensures
        s.with_half(tracker, from, true, first).with_half(tracker, to, false, second)
            == s.with_rename(from, to, second),
        s.with_half(tracker, to, false, first).with_half(tracker, from, true, second)
            == s.with_rename(from, to, second),
{
    let source = HalfView { tracker, path: from, is_source: true, seen_ms: first };
    let target = HalfView { tracker, path: to, is_source: false, seen_ms: first };
    lemma_last_half(s, source);
    lemma_last_half(s, target);
    assert(s.halves.push(source).remove(s.halves.len() as int) =~= s.halves);
    assert(s.halves.push(target).remove(s.halves.len() as int) =~= s.halves);
    assert(s.with_half(tracker, from, true, first).with_half(tracker, to, false, second)
        =~= s.with_rename(from, to, second));
    assert(s.with_half(tracker, to, false, first).with_half(tracker, from, true, second)
        =~= s.with_rename(from, to, second));
}

/// Taking the change for a path out keeps the changes coherent, and leaves none
/// for the path.
proof fn lemma_drop(pending: Seq<PendingView>, path: PathKey)
    requires
        paths_unique(pending),
        paths_agree(pending),
    ensures
        ({
            let after = drop_pending(pending, path);
            &&& paths_unique(after)
            &&& paths_agree(after)
            &&& forall|i: int| 0 <= i < after.len() ==> (#[trigger] after[i]).path != path
        }),
{
    let after = drop_pending(pending, path);
    if exists|i: int| is_pending_at(pending, path, i) {
        let k = choose|i: int| is_pending_at(pending, path, i);
        assert forall|i: int, j: int| 0 <= i < j < after.len() implies (#[trigger] after[i]).path
            != (#[trigger] after[j]).path by {
            let a = if i < k {
                i
            } else {
                i + 1
            };
            let b = if j < k {
                j
            } else {
                j + 1
            };
            assert(pending[a].path != pending[b].path);
        }
        assert forall|i: int| 0 <= i < after.len() implies about((#[trigger] after[i]).change)
            == Some(after[i].path) && after[i].path != path by {
            let a = if i < k {
                i
            } else {
                i + 1
            };
            assert(after[i] == pending[a]);
            assert(about(pending[a].change) == Some(pending[a].path));
            if a < k {
                assert(pending[a].path != pending[k].path);
            } else {
                assert(pending[k].path != pending[a].path);
            }
        }
    } else {
        assert forall|i: int| 0 <= i < after.len() implies (#[trigger] after[i]).path != path by {
            assert(!is_pending_at(pending, path, i));
        }
    }
}

/// A change that waits under a path stays where it is when halves about other
/// paths expire.
proof fn lemma_expired_keeps(s: WatchState, now: u64, n: nat, entry: PendingView)
    requires
        s.wf(),
        n <= s.halves.len(),
        s.pending.contains(entry),
        forall|i: int|
            0 <= i < s.halves.len() && has_passed(
                (#[trigger] s.halves[i]).seen_ms,
                now,
                PENDING_RENAME_TTL_MS,
            ) ==> path_key(s.halves[i].path) != entry.path,
    ensures
        halves_expired(s, now, n).pending.contains(entry),
    decreases n,
{
    if n > 0 {
        lemma_expired_keeps(s, now, (n - 1) as nat, entry);
        lemma_expired(s, now, (n - 1) as nat);
        let before = halves_expired(s, now, (n - 1) as nat);
        let half = s.halves[n - 1];
        if has_passed(half.seen_ms, now, PENDING_RENAME_TTL_MS) {
            lemma_put(before.pending, plain_pending(half.path, half.is_source, now));
            let j = choose|j: int| 0 <= j < before.pending.len() && before.pending[j] == entry;
            assert(before.pending[j].path != path_key(half.path));
        }
    }
}

/// A half that is not too old is still waiting after a poll, and the poll gives
/// out and keeps what it would have without it.
pub proof fn a_waiting_half_outlasts_a_poll(s: WatchState, half: HalfView, now: u64)
    requires
        !has_passed(half.seen_ms, now, PENDING_RENAME_TTL_MS),
    ensures
        ({
            let waiting = WatchState { halves: s.halves.push(half), ..s };
            &&& given_out(waiting, now) == given_out(s, now)
            &&& kept(waiting, now) == (WatchState {
                halves: kept(s, now).halves.push(half),
                ..kept(s, now)
            })
        }),
{
    let waiting = WatchState { halves: s.halves.push(half), ..s };
    lemma_same_halves_expire(s, waiting, now, s.halves.len());
    lemma_expired_keeps_flag(s, now, s.halves.len());
}

/// Whether halves expire depends on none that came later.
proof fn lemma_same_halves_expire(s: WatchState, longer: WatchState, now: u64, n: nat)
    requires
        n <= s.halves.len() <= longer.halves.len(),
        forall|i: int| 0 <= i < s.halves.len() ==> #[trigger] s.halves[i] == longer.halves[i],
        s.pending == longer.pending,
        s.overflowed == longer.overflowed,
    ensures
        halves_expired(s, now, n) == halves_expired(longer, now, n),
    decreases n,
{
    if n > 0 {
        lemma_same_halves_expire(s, longer, now, (n - 1) as nat);
        assert(s.halves[n - 1] == longer.halves[n - 1]);
    }
}

/// The two halves of a rename give one change, in whichever order they come.
/// Once both paths have been quiet long enough, exactly one change about the new
/// path is given out, the rename, and none about the old one, whatever had been
/// pending for either; nothing about the new path is left waiting. It takes that no
/// half of another rename, about the new path, is given up on meanwhile.
pub proof fn a_paired_rename_is_one_change(
    s: WatchState,
    tracker: usize,
    from: Seq<char>,
    to: Seq<char>,
    first: u64,
    second: u64,
    now: u64,
)
    requires
        s.wf(),
        forall|i: int| !is_half_at(s.halves, tracker, i),
        forall|i: int|
            0 <= i < s.halves.len() && has_passed(
                (#[trigger] s.halves[i]).seen_ms,
                now,
                PENDING_RENAME_TTL_MS,
            ) ==> path_key(s.halves[i].path) != path_key(to),
        has_passed(second, now, DEBOUNCE_MS),
    ensures
        ({
            let after = s.with_half(tracker, from, true, first).with_half(
                tracker,
                to,
                false,
                second,
            );
            let other = s.with_half(tracker, to, false, first).with_half(
                tracker,
                from,
                true,
                second,
            );
            let out = given_out(after, now);
            let moved = ChangeView::Renamed { from, to };
            &&& other == after
            &&& out.contains(moved)
            &&& forall|i: int|
                0 <= i < out.len() && about(#[trigger] out[i]) == Some(path_key(to)) ==> out[i]
                    == moved
            &&& forall|i: int, j: int|
                0 <= i < j < out.len() ==> !(#[trigger] out[i] == moved && #[trigger] out[j]
                    == moved)
            &&& path_key(from) != path_key(to) ==> forall|i: int|
                0 <= i < out.len() ==> about(#[trigger] out[i]) != Some(path_key(from))
            &&& forall|i: int|
                0 <= i < kept(after, now).pending.len() ==> (#[trigger] kept(after, now).pending[i]).path
                    != path_key(to)
        }),
{
    halves_are_paired_by_their_id(s, tracker, from, to, first, second);
    let moved = ChangeView::Renamed { from, to };
    let entry = PendingView { path: path_key(to), change: moved, last_seen_ms: second };
    let without = drop_pending(s.pending, path_key(from));
    lemma_drop(s.pending, path_key(from));
    lemma_put(without, entry);
    let after = s.with_rename(from, to, second);
    assert(after.wf());
    let settled = halves_expired(after, now, after.halves.len());
    lemma_expired(after, now, after.halves.len());
    lemma_expired_keeps(after, now, after.halves.len(), entry);
    lemma_quiet_from(settled.pending, now, settled.pending.len());
    lemma_busy_from(settled.pending, now, settled.pending.len());
    a_burst_coalesces_to_one_change(after, now);
    let at = choose|k: int| 0 <= k < settled.pending.len() && settled.pending[k] == entry;
    let quiet = quiet_changes(settled.pending, now, settled.pending.len());
    let out = given_out(after, now);
    let shift: int = if s.overflowed {
        1
    } else {
        0
    };
    assert(quiet.contains(settled.pending[at].change));
    let q = choose|q: int| 0 <= q < quiet.len() && quiet[q] == moved;
    assert(out[q + shift] == moved);
    assert forall|i: int| 0 <= i < out.len() implies (about(#[trigger] out[i]) == Some(path_key(to))
        ==> out[i] == moved) && (path_key(from) != path_key(to) ==> about(out[i]) != Some(
        path_key(from),
    )) by {
        if i >= shift {
            assert(out[i] == quiet[i - shift]);
            let j = choose|j: int|
                0 <= j < settled.pending.len() && quiet[i - shift] == settled.pending[j].change
                    && has_passed(settled.pending[j].last_seen_ms, now, DEBOUNCE_MS);
            assert(about(settled.pending[j].change) == Some(settled.pending[j].path));
            if j < at {
                assert(settled.pending[j].path != settled.pending[at].path);
            }
            if at < j {
                assert(settled.pending[at].path != settled.pending[j].path);
            }
            assert(after.pending.contains(settled.pending[j]));
            let k = choose|k: int|
                0 <= k < after.pending.len() && after.pending[k] == settled.pending[j];
            if after.pending[k] != entry {
                assert(without.contains(after.pending[k]));
            }
        }
    }
    let rest = kept(after, now).pending;
    assert forall|i: int| 0 <= i < rest.len() implies (#[trigger] rest[i]).path != path_key(to) by {
        let j = choose|j: int|
            0 <= j < settled.pending.len() && rest[i] == settled.pending[j] && !has_passed(
                settled.pending[j].last_seen_ms,
                now,
                DEBOUNCE_MS,
            );
        if j < at {
            assert(settled.pending[j].path != settled.pending[at].path);
        }
        if at < j {
            assert(settled.pending[at].path != settled.pending[j].path);
        }
    }
}

/// A half just added is the one found under its id.
proof fn lemma_last_half(s: WatchState, half: HalfView)
    requires
        forall|i: int| !is_half_at(s.halves, half.tracker, i),
    ensures
        is_half_at(s.halves.push(half), half.tracker, s.halves.len() as int),
        forall|i: int| #[trigger]
            is_half_at(s.halves.push(half), half.tracker, i) ==> i == s.halves.len(),
{
    let halves = s.halves.push(half);
    assert forall|i: int| #[trigger] is_half_at(halves, half.tracker, i) implies i
        == s.halves.len() by {
        if i < s.halves.len() {
            assert(is_half_at(s.halves, half.tracker, i));
        }
    }
}

/// Halves with different ids are never paired: no change comes of them.
pub proof fn different_ids_are_never_paired(
    s: WatchState,
    a: usize,
    b: usize,
    from: Seq<char>,
    to: Seq<char>,
    first: u64,
    second: u64,
)
    requires
        a != b,
        forall|i: int| !is_half_at(s.halves, a, i) && !is_half_at(s.halves, b, i),
    ensures
        s.with_half(a, from, true, first).with_half(b, to, false, second).pending == s.pending,
{
    let source = HalfView { tracker: a, path: from, is_source: true, seen_ms: first };
    let halves = s.halves.push(source);
    assert forall|i: int| !is_half_at(halves, b, i) by {
        if is_half_at(halves, b, i) && i < s.halves.len() {
            assert(is_half_at(s.halves, b, i));
        }
    }
}

/// A half that waited too long becomes a plain change: a source a deletion, a
/// destination an arrival. It no longer waits.
pub proof fn an_unpaired_half_expires_into_a_plain_change(
    s: WatchState,
    half: HalfView,
    now: u64,
)
    requires
        s.wf(),
        s.halves == seq![half],
        has_passed(half.seen_ms, now, PENDING_RENAME_TTL_MS),
    ensures
        kept(s, now).halves.len() == 0,
        kept(s, now).pending.contains(plain_pending(half.path, half.is_source, now)),
{
    let entry = plain_pending(half.path, half.is_source, now);
    reveal_with_fuel(halves_expired, 2);
    let settled = halves_expired(s, now, 1);
    lemma_put(s.pending, entry);
    assert(settled.pending == put_pending(s.pending, entry));
    lemma_busy_keeps(settled.pending, now, settled.pending.len());
    let k = choose|k: int| 0 <= k < settled.pending.len() && settled.pending[k] == entry;
    assert(!has_passed(settled.pending[k].last_seen_ms, now, DEBOUNCE_MS));
}

/// Every change that is not due is kept.
proof fn lemma_busy_keeps(pending: Seq<PendingView>, now: u64, n: nat)
    requires
        n <= pending.len(),
    ensures
        forall|j: int|
            0 <= j < n && !has_passed((#[trigger] pending[j]).last_seen_ms, now, DEBOUNCE_MS)
                ==> busy_pending(pending, now, n).contains(pending[j]),
    decreases n,
{
    if n > 0 {
        lemma_busy_keeps(pending, now, (n - 1) as nat);
        let before = busy_pending(pending, now, (n - 1) as nat);
        let after = busy_pending(pending, now, n);
        assert forall|j: int|
            0 <= j < n && !has_passed(
                (#[trigger] pending[j]).last_seen_ms,
                now,
                DEBOUNCE_MS,
            ) implies after.contains(pending[j]) by {
            if j < n - 1 {
                let k = choose|k: int| 0 <= k < before.len() && before[k] == pending[j];
                assert(before.contains(pending[j]));
                assert(after[k] == pending[j]);
            } else {
                assert(after[before.len() as int] == pending[j]);
            }
        }
    }
}

// Laws about reports and what is given out for them.

/// Whether a change that waits under a path is left alone by the halves that have
/// waited for a second: none of them is about that path.
pub open spec fn no_half_expires_on(s: WatchState, path: Seq<char>, now: u64) -> bool {
    forall|i: int|
        0 <= i < s.halves.len() && now - (#[trigger] s.halves[i]).seen_ms >= 1_000 ==> path_key(
            s.halves[i].path,
        ) != path_key(path)
}

/// Whether an id is not that of a half that waits.
pub open spec fn is_fresh(s: WatchState, tracker: usize) -> bool {
    forall|i: int| 0 <= i < s.halves.len() ==> (#[trigger] s.halves[i]).tracker != tracker
}

/// A change that has waited for half a second is given out, and is all that is given
/// out about its path.
proof fn lemma_due(s: WatchState, entry: PendingView, path: Seq<char>, now: u64)
    requires
        s.wf(),
        s.pending.contains(entry),
        entry.path == path_key(path),
        now - entry.last_seen_ms >= 500,
        no_half_expires_on(s, path, now),
    ensures
        ({
            let out = given_out(s, now);
            &&& out.contains(entry.change)
            &&& forall|i: int|
                0 <= i < out.len() && about(#[trigger] out[i]) == Some(entry.path) ==> out[i]
                    == entry.change
            &&& forall|i: int|
                0 <= i < kept(s, now).pending.len() ==> (#[trigger] kept(s, now).pending[i]).path
                    != entry.path
            &&& forall|p: PathKey|
                p != entry.path && (forall|k: int|
                    0 <= k < s.pending.len() ==> (#[trigger] s.pending[k]).path != p)
                    ==> #[trigger] none_about(out, p)
        }),
{
    let settled = halves_expired(s, now, s.halves.len());
    lemma_expired(s, now, s.halves.len());
    lemma_expired_keeps(s, now, s.halves.len(), entry);
    lemma_quiet_from(settled.pending, now, settled.pending.len());
    lemma_busy_from(settled.pending, now, settled.pending.len());
    let at = choose|k: int| 0 <= k < settled.pending.len() && settled.pending[k] == entry;
    let quiet = quiet_changes(settled.pending, now, settled.pending.len());
    let out = given_out(s, now);
    let shift: int = if s.overflowed {
        1
    } else {
        0
    };
    assert(quiet.contains(settled.pending[at].change));
    let q = choose|q: int| 0 <= q < quiet.len() && quiet[q] == entry.change;
    assert(out[q + shift] == entry.change);
    assert forall|i: int| 0 <= i < out.len() implies (about(#[trigger] out[i]) == Some(entry.path)
        ==> out[i] == entry.change) by {
        if i >= shift {
            let j = lemma_given_from(s, now, i);
            if j < at {
                assert(settled.pending[j].path != settled.pending[at].path);
            }
            if at < j {
                assert(settled.pending[at].path != settled.pending[j].path);
            }
        }
    }
    assert forall|p: PathKey|
        p != entry.path && (forall|k: int|
            0 <= k < s.pending.len() ==> (#[trigger] s.pending[k]).path
                != p) implies #[trigger] none_about(out, p) by {
        assert forall|i: int| 0 <= i < out.len() implies about(#[trigger] out[i]) != Some(p) by {
            if i >= shift {
                let j = lemma_given_from(s, now, i);
                assert(s.pending.contains(settled.pending[j]));
                let k = choose|k: int|
                    0 <= k < s.pending.len() && s.pending[k] == settled.pending[j];
                assert(s.pending[k].path != p);
            }
        }
    }
    let rest = kept(s, now).pending;
    assert forall|i: int| 0 <= i < rest.len() implies (#[trigger] rest[i]).path != entry.path by {
        let j = choose|j: int|
            0 <= j < settled.pending.len() && rest[i] == settled.pending[j] && !has_passed(
                settled.pending[j].last_seen_ms,
                now,
                DEBOUNCE_MS,
            );
        if j < at {
            assert(settled.pending[j].path != settled.pending[at].path);
        }
        if at < j {
            assert(settled.pending[at].path != settled.pending[j].path);
        }
    }
}

/// Whether no change is about a path.
pub open spec fn none_about(out: Seq<ChangeView>, path: PathKey) -> bool {
    forall|i: int| 0 <= i < out.len() ==> about(#[trigger] out[i]) != Some(path)
}

/// Where a change that is given out, other than an overflow, has waited.
proof fn lemma_given_from(s: WatchState, now: u64, i: int) -> (j: int)
    requires
        s.wf(),
        (if s.overflowed {
            1int
        } else {
            0int
        }) <= i < given_out(s, now).len(),
    ensures
        ({
            let settled = halves_expired(s, now, s.halves.len());
            &&& 0 <= j < settled.pending.len()
            &&& given_out(s, now)[i] == settled.pending[j].change
            &&& about(settled.pending[j].change) == Some(settled.pending[j].path)
            &&& settled.pending[j].last_seen_ms + 500 <= now
        }),
{
    let settled = halves_expired(s, now, s.halves.len());
    lemma_expired(s, now, s.halves.len());
    lemma_quiet_from(settled.pending, now, settled.pending.len());
    let quiet = quiet_changes(settled.pending, now, settled.pending.len());
    let shift: int = if s.overflowed {
        1
    } else {
        0
    };
    assert(given_out(s, now)[i] == quiet[i - shift]);
    let j = choose|j: int|
        0 <= j < settled.pending.len() && quiet[i - shift] == settled.pending[j].change
            && has_passed(settled.pending[j].last_seen_ms, now, DEBOUNCE_MS);
    assert(about(settled.pending[j].change) == Some(settled.pending[j].path));
    j
}

/// What a rename leaves waiting.
proof fn lemma_rename_waits(s: WatchState, from: Seq<char>, to: Seq<char>, now: u64)
    requires
        s.wf(),
    ensures
        ({
            let after = s.with_rename(from, to, now);
            &&& after.wf()
            &&& after.halves == s.halves
            &&& after.overflowed == s.overflowed
            &&& after.pending.contains(
                PendingView {
                    path: path_key(to),
                    change: ChangeView::Renamed { from, to },
                    last_seen_ms: now,
                },
            )
            &&& path_key(from) != path_key(to) ==> forall|k: int|
                0 <= k < after.pending.len() ==> (#[trigger] after.pending[k]).path != path_key(
                    from,
                )
            &&& forall|e: PendingView|
                s.pending.contains(e) && e.path != path_key(from) && e.path != path_key(to)
                    ==> #[trigger] after.pending.contains(e)
        }),
{
    let entry = PendingView {
        path: path_key(to),
        change: ChangeView::Renamed { from, to },
        last_seen_ms: now,
    };
    let without = drop_pending(s.pending, path_key(from));
    lemma_drop(s.pending, path_key(from));
    lemma_put(without, entry);
    let after = s.with_rename(from, to, now);
    assert forall|k: int|
        path_key(from) != path_key(to) && 0 <= k < after.pending.len() implies (
    #[trigger] after.pending[k]).path != path_key(from) by {
        if after.pending[k] != entry {
            assert(without.contains(after.pending[k]));
        }
    }
    assert forall|e: PendingView|
        s.pending.contains(e) && e.path != path_key(from) && e.path != path_key(
            to,
        ) implies #[trigger] after.pending.contains(e) by {
        lemma_drop_keeps(s.pending, path_key(from), e);
        let k = choose|k: int| 0 <= k < without.len() && without[k] == e;
        assert(without[k].path != entry.path);
    }
}

/// Taking one change out leaves the others.
proof fn lemma_drop_keeps(pending: Seq<PendingView>, path: PathKey, e: PendingView)
    requires
        pending.contains(e),
        e.path != path,
    ensures
        drop_pending(pending, path).contains(e),
{
    let j = choose|j: int| 0 <= j < pending.len() && pending[j] == e;
    if exists|i: int| is_pending_at(pending, path, i) {
        let k = choose|i: int| is_pending_at(pending, path, i);
        let after = drop_pending(pending, path);
        if j < k {
            assert(after[j] == e);
        } else {
            assert(after[j - 1] == e);
        }
    }
}

/// A report with both ends of a rename: once the new path has been quiet for half a
/// second, what is given out about it is that the first path of the report became
/// the second, and nothing is given out about the first. It takes that no half of
/// another rename, about the new path, is given up on meanwhile.
pub proof fn a_report_of_both_ends_is_a_rename(
    s: WatchState,
    report: RawEvent,
    seen: u64,
    now: u64,
)
    requires
        s.wf(),
        report.kind == RawKind::Rename(RenameMode::Both),
        report.paths.len() >= 2,
        now - seen >= 500,
        no_half_expires_on(s, report.paths[1]@, now),
    ensures
        ({
            let from = report.paths[0]@;
            let to = report.paths[1]@;
            let out = given_out(absorbed(s, report, seen), now);
            let moved = ChangeView::Renamed { from, to };
            &&& out.contains(moved)
            &&& forall|i: int|
                0 <= i < out.len() && about(#[trigger] out[i]) == Some(path_key(to)) ==> out[i]
                    == moved
            &&& path_key(from) != path_key(to) ==> none_about(out, path_key(from))
        }),
{
    let from = report.paths[0]@;
    let to = report.paths[1]@;
    lemma_rename_waits(s, from, to, seen);
    let entry = PendingView {
        path: path_key(to),
        change: ChangeView::Renamed { from, to },
        last_seen_ms: seen,
    };
    lemma_due(s.with_rename(from, to, seen), entry, to, now);
}

/// A report with both ends of a rename leaves a watch as two reports with one end
/// each would, under an id that nothing else waits under, in whichever order.
pub proof fn both_ends_are_two_halves(
    s: WatchState,
    both: RawEvent,
    source: RawEvent,
    target: RawEvent,
    first: u64,
    second: u64,
)
    requires
        s.wf(),
        both.kind == RawKind::Rename(RenameMode::Both),
        both.paths.len() == 2,
        source.kind == RawKind::Rename(RenameMode::From),
        source.paths@ == seq![both.paths[0]],
        target.kind == RawKind::Rename(RenameMode::To),
        target.paths@ == seq![both.paths[1]],
        source.tracker is Some,
        target.tracker == source.tracker,
        is_fresh(s, source.tracker->0),
    ensures
        absorbed(absorbed(s, source, first), target, second) == absorbed(s, both, second),
        absorbed(absorbed(s, target, first), source, second) == absorbed(s, both, second),
{
    assert(source.paths@[0] == both.paths[0]);
    assert(target.paths@[0] == both.paths[1]);
    halves_are_paired_by_their_id(
        s,
        source.tracker->0,
        both.paths[0]@,
        both.paths[1]@,
        first,
        second,
    );
}

/// Two reports with one end of a rename each, under one id, give out one change:
/// that the path of the source became that of the target. It does not matter which
/// of them comes first.
pub proof fn two_halves_make_a_rename(
    s: WatchState,
    source: RawEvent,
    target: RawEvent,
    first: u64,
    second: u64,
    now: u64,
)
    requires
        s.wf(),
        source.kind == RawKind::Rename(RenameMode::From),
        target.kind == RawKind::Rename(RenameMode::To),
        source.paths.len() >= 1,
        target.paths.len() >= 1,
        source.tracker is Some,
        target.tracker == source.tracker,
        is_fresh(s, source.tracker->0),
        now - second >= 500,
        no_half_expires_on(s, target.paths[0]@, now),
    ensures
        ({
            let from = source.paths[0]@;
            let to = target.paths[0]@;
            let after = absorbed(absorbed(s, source, first), target, second);
            let out = given_out(after, now);
            let moved = ChangeView::Renamed { from, to };
            &&& absorbed(absorbed(s, target, first), source, second) == after
            &&& after.halves == s.halves
            &&& out.contains(moved)
            &&& forall|i: int|
                0 <= i < out.len() && about(#[trigger] out[i]) == Some(path_key(to)) ==> out[i]
                    == moved
            &&& path_key(from) != path_key(to) ==> none_about(out, path_key(from))
        }),
{
    let from = source.paths[0]@;
    let to = target.paths[0]@;
    halves_are_paired_by_their_id(s, source.tracker->0, from, to, first, second);
    lemma_rename_waits(s, from, to, second);
    let entry = PendingView {
        path: path_key(to),
        change: ChangeView::Renamed { from, to },
        last_seen_ms: second,
    };
    lemma_due(s.with_rename(from, to, second), entry, to, now);
}

/// Whether a report is about its paths one by one: not that reports were lost, not
/// that something was only read, and no rename whose ends can be told.
pub open spec fn is_plain(report: RawEvent) -> bool {
    match report.kind {
        RawKind::Create => true,
        RawKind::Remove => true,
        RawKind::Modify => true,
        RawKind::Any => true,
        RawKind::Other => !report.need_rescan,
        RawKind::Access => false,
        RawKind::Rename(RenameMode::Unknown) => true,
        RawKind::Rename(RenameMode::Both) => report.paths.len() < 2,
        RawKind::Rename(RenameMode::From) => report.tracker is None,
        RawKind::Rename(RenameMode::To) => report.tracker is None,
    }
}

/// A plain report is a change of each of its paths: that it is gone where that was
/// reported, and otherwise that it was touched. It is given out when the path has
/// been quiet for half a second, and not before.
pub proof fn a_plain_report_is_a_change_of_each_path(
    s: WatchState,
    report: RawEvent,
    i: int,
    seen: u64,
    now: u64,
)
    requires
        s.wf(),
        is_plain(report),
        0 <= i < report.paths.len(),
        forall|j: int|
            i < j < report.paths.len() ==> path_key((#[trigger] report.paths[j])@) != path_key(
                report.paths[i]@,
            ),
        no_half_expires_on(s, report.paths[i]@, now),
    ensures
        ({
            let path = report.paths[i]@;
            let after = absorbed(s, report, seen);
            let out = given_out(after, now);
            let change = if report.kind == RawKind::Remove {
                ChangeView::Removed(path)
            } else {
                ChangeView::Touched(path)
            };
            &&& after.halves == s.halves
            &&& after.overflowed == s.overflowed
            &&& now - seen >= 500 ==> out.contains(change) && forall|k: int|
                0 <= k < out.len() && about(#[trigger] out[k]) == Some(path_key(path)) ==> out[k]
                    == change
            &&& now - seen < 500 ==> none_about(out, path_key(path)) && kept(
                after,
                now,
            ).pending.contains(PendingView { path: path_key(path), change, last_seen_ms: seen })
        }),
{
    let path = report.paths[i]@;
    let n = report.paths@.len();
    let removed = report.kind == RawKind::Remove;
    let after = absorbed(s, report, seen);
    assert(after == s.with_plain(report.paths@, removed, seen, n));
    lemma_plain_waits(s, report.paths@, removed, seen, n, i);
    let entry = plain_pending(path, removed, seen);
    if now - seen >= 500 {
        lemma_due(after, entry, path, now);
    } else {
        let settled = halves_expired(after, now, after.halves.len());
        lemma_expired(after, now, after.halves.len());
        lemma_expired_keeps(after, now, after.halves.len(), entry);
        lemma_busy_keeps(settled.pending, now, settled.pending.len());
        let at = choose|k: int| 0 <= k < settled.pending.len() && settled.pending[k] == entry;
        assert(!has_passed(settled.pending[at].last_seen_ms, now, DEBOUNCE_MS));
        let out = given_out(after, now);
        assert forall|k: int| 0 <= k < out.len() implies about(#[trigger] out[k]) != Some(
            path_key(path),
        ) by {
            if !(s.overflowed && k == 0) {
                let j = lemma_given_from(after, now, k);
                if j < at {
                    assert(settled.pending[j].path != settled.pending[at].path);
                }
                if at < j {
                    assert(settled.pending[at].path != settled.pending[j].path);
                }
            }
        }
    }
}

/// What plain changes leave waiting.
proof fn lemma_plain_waits(
    s: WatchState,
    paths: Seq<String>,
    removed: bool,
    seen: u64,
    n: nat,
    i: int,
)
    requires
        s.wf(),
        n <= paths.len(),
        forall|j: int|
            i < j < paths.len() ==> path_key((#[trigger] paths[j])@) != path_key(paths[i]@),
    ensures
        ({
            let after = s.with_plain(paths, removed, seen, n);
            &&& after.wf()
            &&& after.halves == s.halves
            &&& after.overflowed == s.overflowed
            &&& 0 <= i < n ==> after.pending.contains(plain_pending(paths[i]@, removed, seen))
            &&& forall|e: PendingView|
                s.pending.contains(e) && (forall|j: int|
                    0 <= j < n ==> path_key((#[trigger] paths[j])@) != e.path)
                    ==> #[trigger] after.pending.contains(e)
        }),
    decreases n,
{
    if n > 0 {
        let before = s.with_plain(paths, removed, seen, (n - 1) as nat);
        lemma_plain_waits(s, paths, removed, seen, (n - 1) as nat, i);
        let entry = plain_pending(paths[n - 1]@, removed, seen);
        lemma_put(before.pending, entry);
        let after = s.with_plain(paths, removed, seen, n);
        if 0 <= i < n - 1 {
            let mine = plain_pending(paths[i]@, removed, seen);
            let k = choose|k: int| 0 <= k < before.pending.len() && before.pending[k] == mine;
            assert(before.pending[k].path != entry.path);
        }
        assert forall|e: PendingView|
            s.pending.contains(e) && (forall|j: int|
                0 <= j < n ==> path_key((#[trigger] paths[j])@)
                    != e.path) implies #[trigger] after.pending.contains(e) by {
            assert(before.pending.contains(e));
            let k = choose|k: int| 0 <= k < before.pending.len() && before.pending[k] == e;
            assert(path_key(paths[n - 1]@) != e.path);
            assert(before.pending[k].path != entry.path);
        }
    }
}

/// That something was read is no change.
pub proof fn reading_is_no_change(s: WatchState, report: RawEvent, seen: u64)
    requires
        report.kind == RawKind::Access,
    ensures
        absorbed(s, report, seen) == s,
{
}

/// Where reports were lost, that is what is given out first, and nothing that waited
/// is given up for it.
pub proof fn lost_reports_are_told_first(s: WatchState, report: RawEvent, seen: u64, now: u64)
    requires
        s.wf(),
        report.kind == RawKind::Other,
        report.need_rescan,
    ensures
        ({
            let after = absorbed(s, report, seen);
            let calm = WatchState { overflowed: false, ..s };
            &&& after.pending == s.pending
            &&& after.halves == s.halves
            &&& given_out(after, now) == seq![ChangeView::Overflowed] + given_out(calm, now)
            &&& kept(after, now) == kept(calm, now)
        }),
{
    let after = absorbed(s, report, seen);
    let calm = WatchState { overflowed: false, ..s };
    lemma_flag_is_beside(after, calm, now, s.halves.len());
    assert(Seq::<ChangeView>::empty() + quiet_changes(
        halves_expired(calm, now, s.halves.len()).pending,
        now,
        halves_expired(calm, now, s.halves.len()).pending.len(),
    ) =~= given_out(calm, now));
    assert(given_out(after, now) =~= seq![ChangeView::Overflowed] + given_out(calm, now));
}

/// Whether reports were lost makes no difference to the halves.
proof fn lemma_flag_is_beside(s: WatchState, other: WatchState, now: u64, n: nat)
    requires
        s.pending == other.pending,
        s.halves == other.halves,
    ensures
        halves_expired(s, now, n).pending == halves_expired(other, now, n).pending,
        halves_expired(s, now, n).halves == halves_expired(other, now, n).halves,
    decreases n,
{
    if n > 0 {
        lemma_flag_is_beside(s, other, now, (n - 1) as nat);
    }
}

/// A change that waits about a path that a report does not name, neither itself nor
/// by the other end of its rename, is left as it is.
pub proof fn other_paths_are_left_alone(
    s: WatchState,
    report: RawEvent,
    seen: u64,
    entry: PendingView,
)
    requires
        s.wf(),
        s.pending.contains(entry),
        forall|j: int|
            0 <= j < report.paths.len() ==> path_key((#[trigger] report.paths[j])@) != entry.path,
        forall|j: int|
            0 <= j < s.halves.len() && report.tracker == Some((#[trigger] s.halves[j]).tracker)
                ==> path_key(s.halves[j].path) != entry.path,
    ensures
        absorbed(s, report, seen).pending.contains(entry),
{
    if report.kind == RawKind::Other && report.need_rescan {
    } else if is_rename(report) {
        if report.kind == RawKind::Rename(RenameMode::Both) {
            assert(path_key(report.paths[0]@) != entry.path);
            assert(path_key(report.paths[1]@) != entry.path);
            lemma_rename_waits(s, report.paths[0]@, report.paths[1]@, seen);
        } else {
            let tracker = report.tracker->0;
            let path = report.paths[0]@;
            assert(path_key(path) != entry.path);
            if exists|i: int| is_half_at(s.halves, tracker, i) {
                let i = choose|i: int| is_half_at(s.halves, tracker, i);
                let partner = s.halves[i];
                let rest = WatchState { halves: s.halves.remove(i), ..s };
                assert(path_key(partner.path) != entry.path);
                assert(trackers_unique(rest.halves)) by {
                    assert forall|a: int, b: int| 0 <= a < b < rest.halves.len() implies (
                    #[trigger] rest.halves[a]).tracker != (#[trigger] rest.halves[b]).tracker by {
                        let c = if a < i {
                            a
                        } else {
                            a + 1
                        };
                        let d = if b < i {
                            b
                        } else {
                            b + 1
                        };
                        assert(s.halves[c].tracker != s.halves[d].tracker);
                    }
                }
                lemma_rename_waits(rest, path, partner.path, seen);
                lemma_rename_waits(rest, partner.path, path, seen);
            }
        }
    } else {
        lemma_plain_waits(
            s,
            report.paths@,
            report.kind == RawKind::Remove,
            seen,
            report.paths@.len(),
            report.paths@.len() as int,
        );
    }
}

/// One end of a rename whose other end has not come for a second is taken for what
/// it looks like: the source for a removal, the target for an arrival. That is given
/// out when half a second more has passed.
pub proof fn an_end_without_its_other_is_a_plain_change(
    s: WatchState,
    report: RawEvent,
    seen: u64,
    now: u64,
    later: u64,
)
    requires
        s.wf(),
        report.kind == RawKind::Rename(RenameMode::From) || report.kind == RawKind::Rename(
            RenameMode::To,
        ),
        report.paths.len() >= 1,
        report.tracker is Some,
        is_fresh(s, report.tracker->0),
        now - seen >= 1_000,
        later - now >= 500,
        no_half_expires_on(kept(absorbed(s, report, seen), now), report.paths[0]@, later),
    ensures
        ({
            let path = report.paths[0]@;
            let after = absorbed(s, report, seen);
            let out = given_out(kept(after, now), later);
            let change = if report.kind == RawKind::Rename(RenameMode::From) {
                ChangeView::Removed(path)
            } else {
                ChangeView::Touched(path)
            };
            &&& after.pending == s.pending
            &&& out.contains(change)
            &&& forall|k: int|
                0 <= k < out.len() && about(#[trigger] out[k]) == Some(path_key(path)) ==> out[k]
                    == change
        }),
{
    let path = report.paths[0]@;
    let tracker = report.tracker->0;
    let is_source = report.kind == RawKind::Rename(RenameMode::From);
    let half = HalfView { tracker, path, is_source, seen_ms: seen };
    let after = absorbed(s, report, seen);
    assert forall|i: int| !is_half_at(s.halves, tracker, i) by {
        if is_half_at(s.halves, tracker, i) {
            assert(s.halves[i].tracker != tracker);
        }
    }
    assert(after =~= WatchState { halves: s.halves.push(half), ..s });
    assert(after.wf()) by {
        assert forall|a: int, b: int| 0 <= a < b < after.halves.len() implies (
        #[trigger] after.halves[a]).tracker != (#[trigger] after.halves[b]).tracker by {
            if b == s.halves.len() {
                assert(s.halves[a].tracker != tracker);
            } else {
                assert(s.halves[a].tracker != s.halves[b].tracker);
            }
        }
    }
    let n = s.halves.len();
    let entry = plain_pending(path, is_source, now);
    let before = halves_expired(after, now, n);
    lemma_expired(after, now, n);
    lemma_put(before.pending, entry);
    let settled = halves_expired(after, now, after.halves.len());
    assert(after.halves[n as int] == half);
    assert(settled.pending == put_pending(before.pending, entry));
    lemma_expired(after, now, after.halves.len());
    lemma_busy_keeps(settled.pending, now, settled.pending.len());
    lemma_busy_unique(settled.pending, now, settled.pending.len());
    lemma_busy_from(settled.pending, now, settled.pending.len());
    let k = choose|k: int| 0 <= k < settled.pending.len() && settled.pending[k] == entry;
    assert(!has_passed(settled.pending[k].last_seen_ms, now, DEBOUNCE_MS));
    let calm = kept(after, now);
    assert(calm.pending.contains(entry));
    lemma_kept_halves(after, now, after.halves.len());
    assert(paths_agree(calm.pending)) by {
        assert forall|i: int| 0 <= i < calm.pending.len() implies about(
            (#[trigger] calm.pending[i]).change,
        ) == Some(calm.pending[i].path) by {
            let j = choose|j: int|
                0 <= j < settled.pending.len() && calm.pending[i] == settled.pending[j];
            assert(about(settled.pending[j].change) == Some(settled.pending[j].path));
        }
    }
    lemma_due(calm, entry, path, later);
}

/// The halves that still wait are among those that waited, each with its own id.
proof fn lemma_kept_halves(s: WatchState, now: u64, n: nat)
    requires
        trackers_unique(s.halves),
        n <= s.halves.len(),
    ensures
        ({
            let halves = halves_expired(s, now, n).halves;
            &&& trackers_unique(halves)
            &&& forall|i: int|
                0 <= i < halves.len() ==> exists|j: int|
                    0 <= j < n && #[trigger] halves[i] == s.halves[j]
        }),
    decreases n,
{
    if n > 0 {
        lemma_kept_halves(s, now, (n - 1) as nat);
        let before = halves_expired(s, now, (n - 1) as nat).halves;
        let after = halves_expired(s, now, n).halves;
        assert forall|i: int| 0 <= i < after.len() implies exists|j: int|
            0 <= j < n && #[trigger] after[i] == s.halves[j] by {
            if i < before.len() {
                assert(after[i] == before[i]);
                let j = choose|j: int| 0 <= j < n - 1 && before[i] == s.halves[j];
                assert(after[i] == s.halves[j]);
            } else {
                assert(after[i] == s.halves[n - 1]);
            }
        }
        assert forall|a: int, b: int| 0 <= a < b < after.len() implies (#[trigger] after[a]).tracker
            != (#[trigger] after[b]).tracker by {
            assert(after[a] == before[a]);
            if b < before.len() {
                assert(before[a].tracker != before[b].tracker);
            } else {
                let j = choose|j: int| 0 <= j < n - 1 && before[a] == s.halves[j];
                assert(s.halves[j].tracker != s.halves[n - 1].tracker);
            }
        }
    }
}

/// Of two reports about the same end of a rename the later one counts: it waits for its
/// other end from then on, under its own path, as though the earlier had not come.
pub proof fn a_later_end_takes_the_place_of_an_earlier_one(
    s: WatchState,
    earlier: RawEvent,
    report: RawEvent,
    first: u64,
    second: u64,
)
    requires
        s.wf(),
        report.kind == RawKind::Rename(RenameMode::From) || report.kind == RawKind::Rename(
            RenameMode::To,
        ),
        earlier.kind == report.kind,
        earlier.paths.len() >= 1,
        report.paths.len() >= 1,
        report.tracker is Some,
        earlier.tracker == report.tracker,
        is_fresh(s, report.tracker->0),
    ensures
        absorbed(absorbed(s, earlier, first), report, second) == absorbed(s, report, second),
        absorbed(s, report, second).halves == s.halves.push(
            HalfView {
                tracker: report.tracker->0,
                path: report.paths[0]@,
                is_source: report.kind == RawKind::Rename(RenameMode::From),
                seen_ms: second,
            },
        ),
{
    let tracker = report.tracker->0;
    let is_source = report.kind == RawKind::Rename(RenameMode::From);
    let half = HalfView { tracker, path: earlier.paths[0]@, is_source, seen_ms: first };
    assert forall|i: int| !is_half_at(s.halves, tracker, i) by {
        if is_half_at(s.halves, tracker, i) {
            assert(s.halves[i].tracker == tracker);
        }
    }
    lemma_last_half(s, half);
    let with = s.halves.push(half);
    let i = choose|i: int| is_half_at(with, tracker, i);
    assert(is_half_at(with, tracker, s.halves.len() as int));
    assert(i == s.halves.len());
    assert(with.remove(i) =~= s.halves);
}

} // verus!
