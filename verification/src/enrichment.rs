//! Model-derived fields: a replaceable cache keyed by file, plus the durable
//! work queue that fills it.
//!
//! Nothing here queues a file of its own accord. Whether a file should be
//! enriched at all depends on configuration and on how much text it has, which
//! is decided elsewhere.
use vstd::prelude::*;

use crate::facets::{are_facets, facets_are_the_most_common_values, facets_of};
use crate::queue::{
    are_pending, attempt_entry, attempted, enqueue_entry, enqueued, pending_in, QueueEntry,
};
use crate::ranked::{how_many, lemma_how_many, lemma_how_many_alike};
use crate::store::{FileId, Store, StoreError, Tables};
use crate::text::{copy_text, text_view};

verus! {

/// One file's model-derived fields.
#[derive(Debug, PartialEq)]
pub struct FileEnrichment {
    pub summary: Option<String>,
    /// A JSON array, as text.
    pub keywords: Option<String>,
    /// A JSON array, as text.
    pub entities: Option<String>,
    pub classification: Option<String>,
    pub enriched_at_unix: i64,
    pub enrichment_version: u32,
}

impl Default for FileEnrichment {
    fn default() -> (r: FileEnrichment)
        ensures
            r == (FileEnrichment {
                summary: None,
                keywords: None,
                entities: None,
                classification: None,
                enriched_at_unix: 0,
                enrichment_version: 0,
            }),
    {
        FileEnrichment {
            summary: None,
            keywords: None,
            entities: None,
            classification: None,
            enriched_at_unix: 0,
            enrichment_version: 0,
        }
    }
}

impl Clone for FileEnrichment {
    fn clone(&self) -> (r: FileEnrichment)
        ensures
            r == *self,
    {
        FileEnrichment {
            summary: copy_text(&self.summary),
            keywords: copy_text(&self.keywords),
            entities: copy_text(&self.entities),
            classification: copy_text(&self.classification),
            enriched_at_unix: self.enriched_at_unix,
            enrichment_version: self.enrichment_version,
        }
    }
}

/// A file is offered for enrichment at most this many times before it is left
/// alone.
pub const MAX_ATTEMPTS: i64 = crate::queue::MAX_ATTEMPTS;

/// Which column a facet query aggregates over.
#[derive(Debug, Clone, Copy, PartialEq, Eq, Structural)]
pub enum FacetColumn {
    Classification,
}

impl FacetColumn {
    /// The column's value in a file's enrichment.
    pub open spec fn value(self, m: Option<FileEnrichment>) -> Option<Seq<char>> {
        match m {
            None => None,
            Some(m) => match self {
                FacetColumn::Classification => text_view(m.classification),
            },
        }
    }

    /// The column's name in the database.
    pub fn column(self) -> (r: &'static str)
        ensures
            r@ == (match self {
                FacetColumn::Classification => "classification"@,
            }),
    {
        match self {
            FacetColumn::Classification => "classification",
        }
    }
}

/// Record one file's enrichment result and clear its queue entry, both or
/// neither.
pub fn record_enrichment(store: &mut Store, file_id: FileId, m: &FileEnrichment) -> (r: Result<
    (),
    StoreError,
>)
    requires
        old(store).wf(),
    ensures
        final(store).wf(),
        final(store).taken() == old(store).taken(),
        match r {
            Ok(_) => final(store)@ == old(store)@.set_enrichment(file_id, *m).set_enrichment_queue(
                file_id,
                None,
            ),
            Err(e) => e is MissingReference && final(store)@ == old(store)@,
        },
        r is Ok <==> old(store)@.has_file(file_id),
{
    if !store.has_file(file_id) {
        return Err(StoreError::MissingReference);
    }
    store.set_enrichment(file_id, m.clone());
    store.set_enrichment_queue(file_id, None);
    Ok(())
}

/// Queue a file for enrichment. A file already queued waits from now on, with
/// its attempts kept: queuing is not attempting.
pub fn enqueue(store: &mut Store, file_id: FileId, queued_at_unix: i64) -> (r: Result<
    (),
    StoreError,
>)
    requires
        old(store).wf(),
    ensures
        final(store).wf(),
        final(store).taken() == old(store).taken(),
        match r {
            Ok(_) => final(store)@ == old(store)@.set_enrichment_queue(
                file_id,
                Some(enqueued(old(store)@.enrichment_queue[file_id - 1], queued_at_unix)),
            ),
            Err(e) => e is MissingReference && final(store)@ == old(store)@,
        },
        r is Ok <==> old(store)@.has_file(file_id),
{
    if !store.has_file(file_id) {
        return Err(StoreError::MissingReference);
    }
    let entry = store.enrichment_slots()[(file_id - 1) as usize];
    store.set_enrichment_queue(file_id, Some(enqueue_entry(entry, queued_at_unix)));
    Ok(())
}

/// Files still waiting for enrichment, longest waiting first, without those
/// tried too often.
pub fn pending(store: &Store, limit: u32) -> (r: Vec<FileId>)
    requires
        store.wf(),
    ensures
        are_pending(store@.enrichment_queue, r@, limit as nat),
{
    pending_in(store.enrichment_slots(), limit)
}

/// Record that a worker picked the file up. A file that is not queued is left
/// as it is.
pub fn record_attempt(store: &mut Store, file_id: FileId)
    requires
        old(store).wf(),
    ensures
        final(store).wf(),
        final(store).taken() == old(store).taken(),
        final(store)@ == (if old(store)@.has_file(file_id) {
            match old(store)@.enrichment_queue[file_id - 1] {
                Some(entry) => old(store)@.set_enrichment_queue(file_id, Some(attempted(entry))),
                None => old(store)@,
            }
        } else {
            old(store)@
        }),
{
    if store.has_file(file_id) {
        let entry = store.enrichment_slots()[(file_id - 1) as usize];
        if let Some(e) = entry {
            store.set_enrichment_queue(file_id, Some(attempt_entry(e)));
        }
    }
}

/// Whether the file at position `k` was enriched by an older version.
pub open spec fn is_stale(t: Tables, version: u32, k: int) -> bool {
    t.enrichment[k] matches Some(e) && e.enrichment_version < version
}

/// The enrichment queue with the first `n` files considered.
pub open spec fn requeued(t: Tables, version: u32, at: i64, n: nat) -> Seq<Option<QueueEntry>> {
    Seq::new(
        t.enrichment_queue.len(),
        |k: int|
            if k < n && is_stale(t, version, k) {
                Some(QueueEntry { queued_at_unix: at, attempt_count: 0 })
            } else {
                t.enrichment_queue[k]
            },
    )
}

/// How many of the first `n` files were enriched by an older version.
pub open spec fn stale_count(t: Tables, version: u32, n: nat) -> nat
    decreases n,
{
    if n == 0 {
        0
    } else {
        stale_count(t, version, (n - 1) as nat) + (if is_stale(t, version, n - 1) {
            1nat
        } else {
            0nat
        })
    }
}

/// Queue every file that an older version enriched, with its attempts set
/// back. A file that was never enriched is not queued. Gives how many were
/// queued.
pub fn requeue_stale(store: &mut Store, current_version: u32, at_unix: i64) -> (r: usize)
    requires
        old(store).wf(),
    ensures
        final(store).wf(),
        final(store).taken() == old(store).taken(),
        final(store)@ == (Tables {
            enrichment_queue: requeued(
                old(store)@,
                current_version,
                at_unix,
                old(store)@.files.len(),
            ),
            ..old(store)@
        }),
        r == stale_count(old(store)@, current_version, old(store)@.files.len()),
{
    let ghost t = store@;
    let total = store.files_len();
    let mut changed: usize = 0;
    let mut k: usize = 0;
    assert(store@ =~= Tables {
        enrichment_queue: requeued(t, current_version, at_unix, 0),
        ..t
    });
    while k < total
        invariant
            0 <= k <= total,
            total == t.files.len(),
            t.wf(),
            t == old(store)@,
            store.wf(),
            store.taken() == old(store).taken(),
            store@ =~= (Tables {
                enrichment_queue: requeued(t, current_version, at_unix, k as nat),
                ..t
            }),
            changed == stale_count(t, current_version, k as nat),
            changed <= k,
        decreases total - k,
    {
        let id = k as i64 + 1;
        let stale = match store.enrichment_of(id) {
            Some(e) => e.enrichment_version < current_version,
            None => false,
        };
        assert(stale == is_stale(t, current_version, k as int));
        if stale {
            store.set_enrichment_queue(
                id,
                Some(QueueEntry { queued_at_unix: at_unix, attempt_count: 0 }),
            );
            changed = changed + 1;
        }
        k = k + 1;
        assert(store@.enrichment_queue =~= requeued(t, current_version, at_unix, k as nat));
    }
    changed
}

/// Read one file's enrichment, if any has been recorded.
pub fn get(store: &Store, file_id: FileId) -> (r: Option<FileEnrichment>)
    requires
        store.wf(),
    ensures
        r == (if store@.has_file(file_id) {
            store@.enrichment[file_id - 1]
        } else {
            None
        }),
{
    if !store.has_file(file_id) {
        return None;
    }
    match store.enrichment_of(file_id) {
        Some(m) => Some(m.clone()),
        None => None,
    }
}

/// A facet column of all files.
pub open spec fn facet_values(t: Tables, column: FacetColumn) -> Seq<Option<Seq<char>>> {
    t.enrichment.map_values(|m: Option<FileEnrichment>| column.value(m))
}

/// Distinct values of one facet column with their counts, most common first.
pub fn distinct_facets(store: &Store, column: FacetColumn, limit: u32) -> (r: Vec<(String, i64)>)
    requires
        store.wf(),
    ensures
        are_facets(r@, facet_values(store@, column), limit as nat),
{
    let ghost t = store@;
    let total = store.files_len();
    let mut values: Vec<Option<String>> = Vec::new();
    let mut k: usize = 0;
    while k < total
        invariant
            0 <= k <= total,
            total == t.files.len(),
            t == store@,
            store.wf(),
            values.len() == k,
            forall|j: int|
                0 <= j < k ==> text_view(#[trigger] values@[j]) == column.value(t.enrichment[j]),
        decreases total - k,
    {
        let value = match store.enrichment_of(k as i64 + 1) {
            None => None,
            Some(m) => match column {
                FacetColumn::Classification => copy_text(&m.classification),
            },
        };
        values.push(value);
        k = k + 1;
    }
    assert(values@.map_values(|v: Option<String>| text_view(v)) =~= facet_values(t, column));
    facets_of(&values, limit)
}

// Laws.

/// What was recorded is what is read, and the file has left the queue.
pub proof fn recording_is_read_back_and_clears_the_queue(t: Tables, id: FileId, e: FileEnrichment)
    requires
        t.wf(),
        t.has_file(id),
    ensures
        ({
            let u = t.set_enrichment(id, e).set_enrichment_queue(id, None);
            &&& u.enrichment[id - 1] == Some(e)
            &&& u.enrichment_queue[id - 1] is None
            &&& forall|k: int|
                0 <= k < t.files.len() && k != id - 1 ==> #[trigger] u.enrichment[k]
                    == t.enrichment[k] && u.enrichment_queue[k] == t.enrichment_queue[k]
        }),
{
}

/// A requeue never queues a file that was never enriched.
pub proof fn requeue_leaves_the_never_enriched_alone(t: Tables, version: u32, at: i64)
    requires
        t.wf(),
    ensures
        forall|k: int|
            0 <= k < t.files.len() && (#[trigger] t.enrichment[k]) is None ==> requeued(
                t,
                version,
                at,
                t.files.len(),
            )[k] == t.enrichment_queue[k],
{
}

/// A facet's count is the number of files whose enrichment gives its value for their
/// classification.
pub proof fn a_facet_counts_the_files_that_say_it(
    t: Tables,
    column: FacetColumn,
    facets: Seq<(String, i64)>,
    limit: nat,
)
    requires
        are_facets(facets, facet_values(t, column), limit),
    ensures
        forall|i: int|
            0 <= i < facets.len() ==> (#[trigger] facets[i]).1 == how_many(
                t.enrichment.len(),
                |k: int|
                    t.enrichment[k] matches Some(e) && text_view(e.classification) == Some(
                        facets[i].0@,
                    ),
            ),
{
    let values = facet_values(t, column);
    facets_are_the_most_common_values(facets, values, limit);
    assert forall|i: int| 0 <= i < facets.len() implies (#[trigger] facets[i]).1 == how_many(
        t.enrichment.len(),
        |k: int|
            t.enrichment[k] matches Some(e) && text_view(e.classification) == Some(facets[i].0@),
    ) by {
        let said = |k: int|
            t.enrichment[k] matches Some(e) && text_view(e.classification) == Some(facets[i].0@);
        lemma_how_many_alike(t.enrichment.len(), |k: int| values[k] == Some(facets[i].0@), said);
    }
}

/// A requeue queues every file that an older version enriched, to be tried afresh, leaves
/// the place of every other file as it is, and says how many it queued.
pub proof fn a_requeue_queues_what_is_behind(t: Tables, version: u32, at: i64)
    requires
        t.wf(),
    ensures
        forall|k: int|
            0 <= k < t.files.len() ==> #[trigger] requeued(t, version, at, t.files.len())[k] == (
            if t.enrichment[k] is Some && t.enrichment[k]->0.enrichment_version < version {
                Some(QueueEntry { queued_at_unix: at, attempt_count: 0 })
            } else {
                t.enrichment_queue[k]
            }),
        stale_count(t, version, t.files.len()) == how_many(
            t.files.len(),
            |k: int| t.enrichment[k] is Some && t.enrichment[k]->0.enrichment_version < version,
        ),
{
    lemma_stale_count(t, version, t.files.len());
}

proof fn lemma_stale_count(t: Tables, version: u32, n: nat)
    ensures
        stale_count(t, version, n) == how_many(
            n,
            |k: int| t.enrichment[k] is Some && t.enrichment[k]->0.enrichment_version < version,
        ),
    decreases n,
{
    lemma_how_many(
        n,
        |k: int| t.enrichment[k] is Some && t.enrichment[k]->0.enrichment_version < version,
    );
    if n > 0 {
        lemma_stale_count(t, version, (n - 1) as nat);
    }
}

} // verus!
