//! Which files have an embedding, and the queue of those that wait for one.
//!
//! The embedding table's width is fixed when it is made, by the model a
//! deployment is configured with. [`ensure_table`] records that choice, so that
//! a later run with another model or width is refused rather than mixing
//! vectors of two kinds.
use vstd::prelude::*;

use crate::queue::{are_pending, attempt_entry, attempted, enqueue_entry, enqueued, pending_in};
use crate::store::{FileId, Store, StoreError, Tables};
use crate::text::same_text;

verus! {

/// The embedding model and width that the embedding table was made with.
#[derive(Debug, PartialEq, Eq)]
pub struct EmbeddingConfig {
    pub model: String,
    pub dimensions: usize,
}

impl Clone for EmbeddingConfig {
    fn clone(&self) -> (r: EmbeddingConfig)
        ensures
            r == *self,
    {
        EmbeddingConfig { model: self.model.clone(), dimensions: self.dimensions }
    }
}

/// The configured model or width is not what the embedding table was made
/// with.
#[derive(Debug, Clone, PartialEq, Eq)]
pub struct DimensionMismatch {
    pub existing_model: String,
    pub existing_dimensions: usize,
    pub requested_model: String,
    pub requested_dimensions: usize,
}

/// A file is offered for embedding at most this many times before it is left
/// alone.
pub const MAX_ATTEMPTS: i64 = crate::queue::MAX_ATTEMPTS;

/// The widest vectors that an embedding table can be made for.
pub const MAX_DIMENSIONS: usize = 8192;

/// Whether an embedding table can be made for vectors of a width.
pub open spec fn usable_width(dimensions: usize) -> bool {
    0 < dimensions <= MAX_DIMENSIONS
}

/// Which model and width the embedding table was made with, if it was.
pub fn config(store: &Store) -> (r: Option<EmbeddingConfig>)
    requires
        store.wf(),
    ensures
        r == store@.embedding_config,
{
    match store.embedding_config_ref() {
        Some(c) => Some(c.clone()),
        None => None,
    }
}

/// Whether the table was made for this model and width.
pub open spec fn same_config(c: EmbeddingConfig, model: Seq<char>, dimensions: usize) -> bool {
    c.model@ == model && c.dimensions == dimensions
}

/// Make the embedding table where there is none yet; its vectors hold at least one
/// number and at most [`MAX_DIMENSIONS`]. Where there is a table, it has to be for
/// the same model and width.
pub fn ensure_table(store: &mut Store, model: &str, dimensions: usize) -> (r: Result<
    (),
    StoreError,
>)
    requires
        old(store).wf(),
    ensures
        final(store).wf(),
        final(store).taken() == old(store).taken(),
        r is Ok <==> match old(store)@.embedding_config {
            Some(c) => same_config(c, model@, dimensions),
            None => usable_width(dimensions),
        },
        match r {
            Ok(_) => {
                &&& final(store)@.embedding_config matches Some(c) && same_config(
                    c,
                    model@,
                    dimensions,
                )
                &&& final(store)@ == (Tables {
                    embedding_config: final(store)@.embedding_config,
                    ..old(store)@
                })
                &&& old(store)@.embedding_config is Some ==> final(store)@ == old(store)@
            },
            Err(e) => {
                &&& final(store)@ == old(store)@
                &&& match old(store)@.embedding_config {
                    Some(c) => e matches StoreError::EmbeddingDimensionMismatch(m)
                        && m.existing_model == c.model && m.existing_dimensions == c.dimensions
                        && m.requested_model@ == model@ && m.requested_dimensions == dimensions,
                    None => e is UnusableVectorWidth,
                }
            },
        },
{
    if let Some(existing) = store.embedding_config_ref() {
        if !same_text(existing.model.as_str(), model) || existing.dimensions != dimensions {
            let mismatch = DimensionMismatch {
                existing_model: existing.model.clone(),
                existing_dimensions: existing.dimensions,
                requested_model: model.to_owned(),
                requested_dimensions: dimensions,
            };
            return Err(StoreError::EmbeddingDimensionMismatch(Box::new(mismatch)));
        }
        return Ok(());
    }
    if dimensions == 0 || dimensions > MAX_DIMENSIONS {
        return Err(StoreError::UnusableVectorWidth);
    }
    store.set_embedding_config(EmbeddingConfig { model: model.to_owned(), dimensions });
    assert(store@ =~= Tables { embedding_config: store@.embedding_config, ..old(store)@ });
    Ok(())
}

/// Whether vectors of a width fit the embedding table.
pub open spec fn fits_table(t: Tables, width: usize) -> bool {
    t.embedding_config matches Some(c) && c.dimensions == width
}

/// The tables with an embedding recorded and its file's queue entry cleared. The
/// embedding table takes any id; only a known file can have been queued.
pub open spec fn stored(t: Tables, id: FileId) -> Tables {
    if t.has_file(id) {
        t.set_embedded(id).set_embedding_queue(id, None)
    } else {
        t.set_embedded(id)
    }
}

/// Record that `file_id` has an embedding of `width` numbers and clear its
/// queue entry, both or neither.
///
/// The vector itself is kept in the embedding table; a vector of another width
/// than the table's is refused.
pub fn store(db: &mut Store, file_id: FileId, width: usize) -> (r: Result<
    (),
    StoreError,
>)
    requires
        old(db).wf(),
    ensures
        final(db).wf(),
        final(db).taken() == old(db).taken(),
        r is Ok <==> fits_table(old(db)@, width),
        match r {
            Ok(_) => final(db)@ == stored(old(db)@, file_id),
            Err(e) => e is WrongVectorWidth && final(db)@ == old(db)@,
        },
{
    let fits = match db.embedding_config_ref() {
        Some(c) => c.dimensions == width,
        None => false,
    };
    if !fits {
        return Err(StoreError::WrongVectorWidth);
    }
    db.set_embedded(file_id);
    if db.has_file(file_id) {
        db.set_embedding_queue(file_id, None);
    }
    Ok(())
}

/// Queue a file for embedding. A file already queued waits from now on, with
/// its attempts kept: queuing is not attempting.
pub fn enqueue(store: &mut Store, file_id: FileId, queued_at_unix: i64) -> (r: Result<
    (),
    StoreError,
>)
    requires
        old(store).wf(),
    ensures
        final(store).wf(),
        final(store).taken() == old(store).taken(),
        match r {
            Ok(_) => final(store)@ == old(store)@.set_embedding_queue(
                file_id,
                Some(enqueued(old(store)@.embedding_queue[file_id - 1], queued_at_unix)),
            ),
            Err(e) => e is MissingReference && final(store)@ == old(store)@,
        },
        r is Ok <==> old(store)@.has_file(file_id),
{
    if !store.has_file(file_id) {
        return Err(StoreError::MissingReference);
    }
    let entry = store.embedding_slots()[(file_id - 1) as usize];
    store.set_embedding_queue(file_id, Some(enqueue_entry(entry, queued_at_unix)));
    Ok(())
}

/// Files still waiting for embedding, longest waiting first, without those
/// tried too often.
pub fn pending(store: &Store, limit: u32) -> (r: Vec<FileId>)
    requires
        store.wf(),
    ensures
        are_pending(store@.embedding_queue, r@, limit as nat),
{
    pending_in(store.embedding_slots(), limit)
}

/// Record that a worker picked the file up. A file that is not queued is left
/// as it is.
pub fn record_attempt(store: &mut Store, file_id: FileId)
    requires
        old(store).wf(),
    ensures
        final(store).wf(),
        final(store).taken() == old(store).taken(),
        final(store)@ == (if old(store)@.has_file(file_id) {
            match old(store)@.embedding_queue[file_id - 1] {
                Some(entry) => old(store)@.set_embedding_queue(file_id, Some(attempted(entry))),
                None => old(store)@,
            }
        } else {
            old(store)@
        }),
{
    if store.has_file(file_id) {
        let entry = store.embedding_slots()[(file_id - 1) as usize];
        if let Some(e) = entry {
            store.set_embedding_queue(file_id, Some(attempt_entry(e)));
        }
    }
}

// Laws.

/// Once an embedding is stored its id has one and its file no longer waits for one.
/// Nothing else changes, and storing another in its place changes nothing more.
pub proof fn storing_is_seen_and_clears_the_queue(t: Tables, id: FileId)
    requires
        t.wf(),
    ensures
        ({
            let after = stored(t, id);
            &&& after.embedded.contains(id)
            &&& t.has_file(id) ==> after.embedding_queue[id - 1] is None
            &&& forall|x: FileId|
                x != id ==> #[trigger] after.embedded.contains(x) == t.embedded.contains(x)
            &&& forall|x: FileId|
                t.has_file(x) && x != id ==> #[trigger] after.embedding_queue[x - 1]
                    == t.embedding_queue[x - 1]
            &&& after == (Tables {
                embedded: after.embedded,
                embedding_queue: after.embedding_queue,
                ..t
            })
            &&& stored(after, id) == after
        }),
{
    assert(stored(stored(t, id), id) =~= stored(t, id));
}

/// An embedding table takes vectors of the width that it was made for and no others; it is
/// for one model and one width only. Without a table no vector is taken. A table can be
/// made for one number up to 8192.
pub proof fn a_table_is_for_one_model_and_width(
    t: Tables,
    model: Seq<char>,
    dimensions: usize,
    other: Seq<char>,
    width: usize,
)
    ensures
        t.embedding_config is None ==> !fits_table(t, width),
        t.embedding_config is Some && same_config(t.embedding_config->0, model, dimensions) ==> (
        fits_table(t, width) <==> width == dimensions) && (same_config(
            t.embedding_config->0,
            other,
            width,
        ) <==> other == model && width == dimensions),
        usable_width(width) <==> 1 <= width <= 8192,
{
}

} // verus!
