//! The durable work queues: one place per file, with how long it has waited
//! and how often it was tried.
//!
//! A file that was tried [`MAX_ATTEMPTS`] times is not offered again. It stays
//! in the queue, so that it can still be seen.
use vstd::prelude::*;

use crate::ranked::{how_many, is_first_of, keep_first, lemma_how_many, Ranked};
use crate::store::FileId;

verus! {

/// How often a file is offered to a worker before it is left alone.
pub const MAX_ATTEMPTS: i64 = 5;

/// One file's place in a work queue.
#[derive(Debug, Clone, Copy, PartialEq, Eq)]
pub struct QueueEntry {
    pub queued_at_unix: i64,
    /// How often a worker has picked the file up.
    pub attempt_count: i64,
}

/// What a queue is ordered by: who waits longest first, and of those who came
/// in the same second the lower file id first.
#[derive(Debug, Clone, Copy, PartialEq, Eq)]
pub struct QueueKey {
    pub queued_at_unix: i64,
    pub file_id: FileId,
}

impl Ranked for QueueKey {
    open spec fn before(self, other: QueueKey) -> bool {
        self.queued_at_unix < other.queued_at_unix || (self.queued_at_unix == other.queued_at_unix
            && self.file_id < other.file_id)
    }

    proof fn before_is_strict(a: QueueKey, b: QueueKey) {
    }

    proof fn before_is_transitive(a: QueueKey, b: QueueKey, c: QueueKey) {
    }

    fn is_before(&self, other: &QueueKey) -> (r: bool) {
        self.queued_at_unix < other.queued_at_unix || (self.queued_at_unix == other.queued_at_unix
            && self.file_id < other.file_id)
    }
}

/// Whether the file at this position may be offered to a worker.
pub open spec fn is_offered(queue: Seq<Option<QueueEntry>>, k: int) -> bool {
    queue[k] matches Some(e) && e.attempt_count < MAX_ATTEMPTS
}

/// The keys of the files among the first `n` that may be offered.
pub open spec fn offered_keys(queue: Seq<Option<QueueEntry>>, n: nat) -> Seq<QueueKey>
    decreases n,
{
    if n == 0 {
        Seq::empty()
    } else {
        let before = offered_keys(queue, (n - 1) as nat);
        if is_offered(queue, n - 1) {
            before.push(
                QueueKey {
                    queued_at_unix: queue[n - 1]->0.queued_at_unix,
                    file_id: n as i64,
                },
            )
        } else {
            before
        }
    }
}

/// The keys under which these files stand in the queue.
pub open spec fn keys_of(queue: Seq<Option<QueueEntry>>, ids: Seq<FileId>) -> Seq<QueueKey> {
    ids.map_values(
        |id: FileId|
            QueueKey { queued_at_unix: queue[id - 1]->0.queued_at_unix, file_id: id },
    )
}

/// Whether `ids` are the first `limit` files to be offered, longest waiting
/// first.
pub open spec fn are_pending(queue: Seq<Option<QueueEntry>>, ids: Seq<FileId>, limit: nat) -> bool {
    &&& is_first_of(keys_of(queue, ids), offered_keys(queue, queue.len()), limit)
    &&& forall|i: int|
        0 <= i < ids.len() ==> 1 <= #[trigger] ids[i] <= queue.len() && is_offered(
            queue,
            ids[i] - 1,
        )
}

/// How many files stand among the first `n` places, offered or not.
pub open spec fn waiting(queue: Seq<Option<QueueEntry>>, n: nat) -> nat
    decreases n,
{
    if n == 0 {
        0
    } else {
        waiting(queue, (n - 1) as nat) + (if queue[n - 1] is Some {
            1nat
        } else {
            0nat
        })
    }
}

/// The entry of a file queued at `at`: a file already queued waits from then,
/// with its attempts kept.
pub open spec fn enqueued(entry: Option<QueueEntry>, at: i64) -> QueueEntry {
    QueueEntry {
        queued_at_unix: at,
        attempt_count: match entry {
            Some(e) => e.attempt_count,
            None => 0,
        },
    }
}

/// The entry of a file that was picked up once more. The count stops at the
/// largest value it can hold.
pub open spec fn attempted(entry: QueueEntry) -> QueueEntry {
    QueueEntry {
        queued_at_unix: entry.queued_at_unix,
        attempt_count: if entry.attempt_count < i64::MAX {
            (entry.attempt_count + 1) as i64
        } else {
            i64::MAX
        },
    }
}

pub(crate) fn enqueue_entry(entry: Option<QueueEntry>, at: i64) -> (r: QueueEntry)
    ensures
        r == enqueued(entry, at),
{
    match entry {
        Some(e) => QueueEntry { queued_at_unix: at, attempt_count: e.attempt_count },
        None => QueueEntry { queued_at_unix: at, attempt_count: 0 },
    }
}

pub(crate) fn attempt_entry(entry: QueueEntry) -> (r: QueueEntry)
    ensures
        r == attempted(entry),
{
    let attempts: i64 = if entry.attempt_count < i64::MAX {
        entry.attempt_count + 1
    } else {
        i64::MAX
    };
    QueueEntry { queued_at_unix: entry.queued_at_unix, attempt_count: attempts }
}

/// The files to offer next.
pub(crate) fn pending_in(queue: &Vec<Option<QueueEntry>>, limit: u32) -> (r: Vec<FileId>)
    requires
        queue.len() <= i64::MAX,
    ensures
        are_pending(queue@, r@, limit as nat),
{
    let ghost q = queue@;
    let most = limit as usize;
    let mut keys: Vec<QueueKey> = Vec::new();
    let mut k: usize = 0;
    while k < queue.len()
        invariant
            0 <= k <= queue.len(),
            queue.len() <= i64::MAX,
            q == queue@,
            most == limit,
            is_first_of(keys@, offered_keys(q, k as nat), most as nat),
        decreases queue.len() - k,
    {
        if let Some(entry) = queue[k] {
            if entry.attempt_count < MAX_ATTEMPTS {
                let key = QueueKey {
                    queued_at_unix: entry.queued_at_unix,
                    file_id: k as i64 + 1,
                };
                proof {
                    lemma_offered_keys(q, k as nat);
                }
                keep_first(&mut keys, key, most, Ghost(offered_keys(q, k as nat)));
            }
        }
        k = k + 1;
    }
    let mut out: Vec<FileId> = Vec::new();
    let mut i: usize = 0;
    while i < keys.len()
        invariant
            0 <= i <= keys.len(),
            q == queue@,
            queue.len() <= i64::MAX,
            is_first_of(keys@, offered_keys(q, q.len()), most as nat),
            out.len() == i,
            forall|j: int|
                0 <= j < i ==> #[trigger] out@[j] == keys@[j].file_id && 1 <= out@[j] <= q.len()
                    && is_offered(q, out@[j] - 1) && keys@[j].queued_at_unix == q[out@[j]
                    - 1]->0.queued_at_unix,
        decreases keys.len() - i,
    {
        proof {
            lemma_offered_keys(q, q.len());
            assert(offered_keys(q, q.len()).contains(keys@[i as int]));
        }
        out.push(keys[i].file_id);
        i = i + 1;
    }
    assert(keys_of(q, out@) =~= keys@);
    out
}

/// Every key offered belongs to a file that may be offered.
pub proof fn lemma_offered_keys(queue: Seq<Option<QueueEntry>>, n: nat)
    requires
        n <= queue.len(),
        queue.len() <= i64::MAX,
    ensures
        forall|j: int|
            0 <= j < offered_keys(queue, n).len() ==> {
                let key = #[trigger] offered_keys(queue, n)[j];
                &&& 1 <= key.file_id <= n
                &&& is_offered(queue, key.file_id - 1)
                &&& key.queued_at_unix == queue[key.file_id - 1]->0.queued_at_unix
            },
        offered_keys(queue, n).len() <= n,
    decreases n,
{
    if n > 0 {
        lemma_offered_keys(queue, (n - 1) as nat);
        let before = offered_keys(queue, (n - 1) as nat);
        let after = offered_keys(queue, n);
        assert forall|j: int| 0 <= j < after.len() implies {
            let key = #[trigger] after[j];
            &&& 1 <= key.file_id <= n
            &&& is_offered(queue, key.file_id - 1)
            &&& key.queued_at_unix == queue[key.file_id - 1]->0.queued_at_unix
        } by {
            if j < before.len() {
                assert(after[j] == before[j]);
            }
        }
    }
}

/// A file that may be offered has its key among the offered ones.
pub proof fn lemma_offered_is_listed(queue: Seq<Option<QueueEntry>>, n: nat, k: int)
    requires
        0 <= k < n <= queue.len(),
        queue.len() <= i64::MAX,
        is_offered(queue, k),
    ensures
        offered_keys(queue, n).contains(
            QueueKey { queued_at_unix: queue[k]->0.queued_at_unix, file_id: (k + 1) as i64 },
        ),
    decreases n,
{
    let key = QueueKey { queued_at_unix: queue[k]->0.queued_at_unix, file_id: (k + 1) as i64 };
    let after = offered_keys(queue, n);
    if k == n - 1 {
        assert(after[after.len() - 1] == key);
    } else {
        lemma_offered_is_listed(queue, (n - 1) as nat, k);
        let before = offered_keys(queue, (n - 1) as nat);
        let p = choose|p: int| 0 <= p < before.len() && before[p] == key;
        assert(after[p] == key);
    }
}

/// How many files stand in the queue.
pub(crate) fn depth_of(queue: &Vec<Option<QueueEntry>>) -> (r: i64)
    requires
        queue.len() <= i64::MAX,
    ensures
        r == waiting(queue@, queue@.len()),
{
    let mut found: i64 = 0;
    let mut k: usize = 0;
    while k < queue.len()
        invariant
            0 <= k <= queue.len(),
            queue.len() <= i64::MAX,
            found == waiting(queue@, k as nat),
            found <= k,
        decreases queue.len() - k,
    {
        if queue[k].is_some() {
            found = found + 1;
        }
        k = k + 1;
    }
    found
}

// Laws.

/// A file that was tried as often as allowed is never offered again, however
/// many others there are.
pub proof fn a_poison_file_is_never_offered(
    queue: Seq<Option<QueueEntry>>,
    ids: Seq<FileId>,
    limit: nat,
    id: FileId,
)
    requires
        are_pending(queue, ids, limit),
        1 <= id <= queue.len(),
        queue[id - 1] matches Some(e) && e.attempt_count >= MAX_ATTEMPTS,
    ensures
        !ids.contains(id),
{
    if ids.contains(id) {
        let i = choose|i: int| 0 <= i < ids.len() && ids[i] == id;
        assert(is_offered(queue, ids[i] - 1));
    }
}

/// A file that waits and was not tried as often as allowed is offered as soon
/// as the limit reaches it.
pub proof fn a_waiting_file_is_offered(
    queue: Seq<Option<QueueEntry>>,
    ids: Seq<FileId>,
    limit: nat,
    id: FileId,
)
    requires
        are_pending(queue, ids, limit),
        queue.len() <= i64::MAX,
        1 <= id <= queue.len(),
        is_offered(queue, id - 1),
        ids.len() < limit,
    ensures
        ids.contains(id),
{
    lemma_offered_is_listed(queue, queue.len(), id - 1);
    let all = offered_keys(queue, queue.len());
    let key = QueueKey { queued_at_unix: queue[id - 1]->0.queued_at_unix, file_id: id };
    let p = choose|p: int| 0 <= p < all.len() && all[p] == key;
    assert(keys_of(queue, ids).contains(all[p]));
    let i = choose|i: int| 0 <= i < ids.len() && keys_of(queue, ids)[i] == key;
    assert(ids[i] == id);
}

// Working through a queue.

/// What a worker does next.
#[derive(Debug, Clone, Copy, PartialEq, Eq)]
pub enum DrainStep {
    /// Ask the queue which files wait.
    Poll,
    /// Rest for a while: none waits.
    Rest,
    /// Work on this file.
    Work(FileId),
    /// Stop.
    Stop,
}

/// What a worker does next, and which files then still wait of those that the
/// queue offered. `offered` is what the queue said where it was just asked. Whether
/// to stop is looked at before each file and before the queue is asked, but not
/// before a rest.
pub open spec fn drain_step(
    waiting: Seq<FileId>,
    offered: Option<Seq<FileId>>,
    stopping: bool,
) -> (Seq<FileId>, DrainStep) {
    let batch = match offered {
        Some(ids) => ids,
        None => waiting,
    };
    if offered is Some && batch.len() == 0 {
        (batch, DrainStep::Rest)
    } else if stopping {
        (batch, DrainStep::Stop)
    } else if batch.len() == 0 {
        (batch, DrainStep::Poll)
    } else {
        (batch.drop_first(), DrainStep::Work(batch[0]))
    }
}

/// A worker's way through its queue.
#[derive(Debug)]
pub struct Drain {
    batch: Vec<FileId>,
    at: usize,
}

impl Drain {
    /// The files that still wait of those that the queue offered.
    pub closed spec fn waiting(&self) -> Seq<FileId> {
        self.batch@.skip(self.at as int)
    }

    /// Whether the worker is in a possible state.
    pub closed spec fn wf(&self) -> bool {
        self.at <= self.batch@.len()
    }

    /// A worker that has asked for nothing yet.
    pub fn begin() -> (r: Drain)
        ensures
            r.wf(),
            r.waiting().len() == 0,
    {
        Drain { batch: Vec::new(), at: 0 }
    }

    /// What to do next.
    pub fn next(&mut self, offered: Option<Vec<FileId>>, stopping: bool) -> (r: DrainStep)
        requires
            old(self).wf(),
        ensures
            final(self).wf(),
            (final(self).waiting(), r) == drain_step(
                old(self).waiting(),
                match offered {
                    Some(ids) => Some(ids@),
                    None => None,
                },
                stopping,
            ),
    {
        let asked = offered.is_some();
        if let Some(ids) = offered {
            self.batch = ids;
            self.at = 0;
            assert(self.waiting() =~= self.batch@);
        }
        let ghost batch = self.waiting();
        if self.at == self.batch.len() {
            assert(batch.len() == 0);
            return if asked {
                DrainStep::Rest
            } else if stopping {
                DrainStep::Stop
            } else {
                DrainStep::Poll
            };
        }
        if stopping {
            return DrainStep::Stop;
        }
        let id = self.batch[self.at];
        self.at = self.at + 1;
        assert(self.waiting() =~= batch.drop_first());
        DrainStep::Work(id)
    }
}

/// The files that are still to be worked on after `n` steps of a worker that is not
/// asked to stop.
pub open spec fn left_after(waiting: Seq<FileId>, n: nat) -> Seq<FileId>
    decreases n,
{
    if n == 0 {
        waiting
    } else {
        drain_step(left_after(waiting, (n - 1) as nat), None, false).0
    }
}

/// A worker that is not asked to stop works on every file that the queue offered,
/// once and in the order of the queue, and asks the queue again only then.
pub proof fn a_batch_is_worked_through_in_order(offered: Seq<FileId>, n: nat)
    requires
        n <= offered.len(),
    ensures
        drain_step(left_after(offered, n), None, false).1 == (if n < offered.len() {
            DrainStep::Work(offered[n as int])
        } else {
            DrainStep::Poll
        }),
{
    lemma_left_after(offered, n);
}

proof fn lemma_left_after(waiting: Seq<FileId>, n: nat)
    requires
        n <= waiting.len(),
    ensures
        left_after(waiting, n) == waiting.skip(n as int),
    decreases n,
{
    if n > 0 {
        lemma_left_after(waiting, (n - 1) as nat);
        assert(waiting.skip(n - 1).drop_first() =~= waiting.skip(n as int));
    } else {
        assert(waiting.skip(0) =~= waiting);
    }
}

// Laws about who is offered next.

/// Those who wait longest are offered first, and of those who came in the same
/// second the one with the lower id. A file is offered where it is queued and was
/// tried less than five times, once, and passed over only where the limit is
/// reached by files that come before it.
pub proof fn the_longest_waiting_come_first(
    queue: Seq<Option<QueueEntry>>,
    ids: Seq<FileId>,
    limit: nat,
)
    requires
        are_pending(queue, ids, limit),
        queue.len() <= i64::MAX,
    ensures
        ids.len() <= limit,
        forall|i: int|
            0 <= i < ids.len() ==> 1 <= #[trigger] ids[i] <= queue.len() && queue[ids[i] - 1]
                is Some && queue[ids[i] - 1]->0.attempt_count < 5,
        forall|i: int, j: int|
            0 <= i < j < ids.len() ==> queue[#[trigger] ids[i] - 1]->0.queued_at_unix <= queue[
            #[trigger] ids[j] - 1]->0.queued_at_unix && ids[i] != ids[j] && (queue[ids[i]
                - 1]->0.queued_at_unix == queue[ids[j] - 1]->0.queued_at_unix ==> ids[i] < ids[j]),
        forall|k: int|
            0 <= k < queue.len() && (#[trigger] queue[k]) is Some && queue[k]->0.attempt_count < 5
                && !ids.contains((k + 1) as i64) ==> ids.len() == limit && forall|i: int|
                0 <= i < ids.len() ==> queue[#[trigger] ids[i] - 1]->0.queued_at_unix
                    <= queue[k]->0.queued_at_unix,
{
    let keys = keys_of(queue, ids);
    let all = offered_keys(queue, queue.len());
    assert forall|i: int, j: int| 0 <= i < j < ids.len() implies queue[#[trigger] ids[i]
        - 1]->0.queued_at_unix <= queue[#[trigger] ids[j] - 1]->0.queued_at_unix && ids[i]
        != ids[j] && (queue[ids[i] - 1]->0.queued_at_unix == queue[ids[j] - 1]->0.queued_at_unix
        ==> ids[i] < ids[j]) by {
        assert(keys[i].before(keys[j]));
    }
    assert forall|i: int| 0 <= i < ids.len() implies 1 <= #[trigger] ids[i] <= queue.len()
        && queue[ids[i] - 1] is Some && queue[ids[i] - 1]->0.attempt_count < 5 by {
        assert(is_offered(queue, ids[i] - 1));
    }
    assert forall|k: int|
        0 <= k < queue.len() && (#[trigger] queue[k]) is Some && queue[k]->0.attempt_count < 5
            && !ids.contains((k + 1) as i64) implies ids.len() == limit && forall|i: int|
        0 <= i < ids.len() ==> queue[#[trigger] ids[i] - 1]->0.queued_at_unix
            <= queue[k]->0.queued_at_unix by {
        assert(is_offered(queue, k));
        lemma_offered_is_listed(queue, queue.len(), k);
        let key = QueueKey { queued_at_unix: queue[k]->0.queued_at_unix, file_id: (k + 1) as i64 };
        let p = choose|p: int| 0 <= p < all.len() && all[p] == key;
        assert(all[p] == key);
        if keys.contains(key) {
            let i = choose|i: int| 0 <= i < keys.len() && keys[i] == key;
            assert(ids[i] == key.file_id);
        }
        assert forall|i: int| 0 <= i < ids.len() implies queue[#[trigger] ids[i]
            - 1]->0.queued_at_unix <= queue[k]->0.queued_at_unix by {
            assert(keys[i].before(all[p]));
        }
    }
}

/// A file's place after a worker has picked it up `n` times.
pub open spec fn tried(entry: QueueEntry, n: nat) -> QueueEntry
    decreases n,
{
    if n == 0 {
        entry
    } else {
        attempted(tried(entry, (n - 1) as nat))
    }
}

/// A file that is queued afresh can be picked up five times and not once more. How
/// long it has waited does not change by that, and queuing it again while it waits
/// gives it no further try: it only has to wait from then on.
pub proof fn five_tries_are_enough(at: i64, n: nat, again: i64)
    requires
        n < i64::MAX,
    ensures
        ({
            let place = tried(enqueued(None, at), n);
            let later = enqueued(Some(place), again);
            &&& is_offered(seq![Some(place)], 0) <==> n < 5
            &&& is_offered(seq![Some(later)], 0) <==> n < 5
            &&& place.queued_at_unix == at
            &&& later.queued_at_unix == again
            &&& place.attempt_count == n
            &&& later.attempt_count == n
        }),
    decreases n,
{
    if n > 0 {
        five_tries_are_enough(at, (n - 1) as nat, again);
    }
}

/// The depth of a queue is how many files stand in it, those that are no longer
/// offered among them.
pub proof fn the_depth_counts_every_file_that_stands_in_it(queue: Seq<Option<QueueEntry>>, n: nat)
    ensures
        waiting(queue, n) == how_many(n, |k: int| queue[k] is Some),
    decreases n,
{
    lemma_how_many(n, |k: int| queue[k] is Some);
    if n > 0 {
        the_depth_counts_every_file_that_stands_in_it(queue, (n - 1) as nat);
    }
}

/// A worker that is asked to stop takes up no further file and does not ask the
/// queue again. One that is not asked to stop never stops.
pub proof fn a_worker_stops_only_when_asked(
    waiting: Seq<FileId>,
    offered: Option<Seq<FileId>>,
    stopping: bool,
)
    ensures
        ({
            let step = drain_step(waiting, offered, stopping);
            &&& step.1 is Stop ==> stopping
            &&& step.1 is Work ==> !stopping
            &&& step.1 is Poll ==> !stopping && offered is None && waiting.len() == 0
            &&& step.1 is Rest <==> offered is Some && offered->0.len() == 0
            &&& offered is Some && offered->0.len() > 0 && !stopping ==> step.1
                == DrainStep::Work(offered->0[0]) && step.0 == offered->0.skip(1)
        }),
{
    if offered is Some && offered->0.len() > 0 {
        assert(offered->0.drop_first() =~= offered->0.skip(1));
    }
}

} // verus!
