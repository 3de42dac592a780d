//! The steps by which a database's schema is brought up to date.
//!
//! Steps are only ever added at the end: databases have taken the earlier ones
//! already, and what they recorded must go on describing what they hold.
use vstd::prelude::*;

use crate::store::StoreError;

verus! {

/// The table of the steps that were taken.
pub const SCHEMA_VERSION_SQL: &'static str = "CREATE TABLE schema_migrations ( version INTEGER PRIMARY KEY, name TEXT NOT NULL, applied_at INTEGER NOT NULL ) STRICT;";

/// Path components, files and events. A tombstone does not keep its place in
/// the tree: only live entries are unique.
pub const TIMELINE_SQL: &'static str = "CREATE TABLE path_components ( id INTEGER PRIMARY KEY, name TEXT NOT NULL UNIQUE ) STRICT; CREATE TABLE files ( id INTEGER PRIMARY KEY, parent_id INTEGER REFERENCES files(id) ON DELETE CASCADE, component_id INTEGER NOT NULL REFERENCES path_components(id), is_dir INTEGER NOT NULL CHECK (is_dir IN (0, 1)), size_bytes INTEGER, mtime_unix INTEGER, content_hash BLOB, deleted_at INTEGER ) STRICT; CREATE UNIQUE INDEX files_live_entry ON files(parent_id, component_id) WHERE deleted_at IS NULL; CREATE INDEX files_parent ON files(parent_id); CREATE TABLE events ( id INTEGER PRIMARY KEY, file_id INTEGER NOT NULL REFERENCES files(id) ON DELETE CASCADE, kind TEXT NOT NULL CHECK (kind IN ('created', 'modified', 'deleted', 'renamed')), at_unix_ms INTEGER NOT NULL, size_bytes INTEGER, prev_parent_id INTEGER REFERENCES files(id) ON DELETE SET NULL, prev_component_id INTEGER REFERENCES path_components(id) ) STRICT; CREATE INDEX events_recent ON events(at_unix_ms DESC, id DESC); CREATE INDEX events_by_file ON events(file_id, at_unix_ms DESC);";

/// Extracted metadata, and the queue of files to extract.
pub const METADATA_SQL: &'static str = "CREATE TABLE file_metadata ( file_id INTEGER PRIMARY KEY REFERENCES files(id) ON DELETE CASCADE, doc_type TEXT, title TEXT, author TEXT, language TEXT, page_count INTEGER, word_count INTEGER, image_taken_at_unix INTEGER, image_camera_model TEXT, git_branch TEXT, git_head_commit TEXT, git_head_author TEXT, git_head_at_unix INTEGER, extracted_at_unix INTEGER NOT NULL, extractor_version INTEGER NOT NULL ) STRICT; CREATE TABLE extraction_queue ( file_id INTEGER PRIMARY KEY REFERENCES files(id) ON DELETE CASCADE, queued_at_unix INTEGER NOT NULL, attempt_count INTEGER NOT NULL DEFAULT 0 ) STRICT; CREATE INDEX extraction_queue_order ON extraction_queue(queued_at_unix ASC);";

/// Text and model-derived fields, and the queue of files to enrich.
pub const ENRICHMENT_SQL: &'static str = "ALTER TABLE file_metadata ADD COLUMN body_text TEXT; CREATE TABLE file_enrichment ( file_id INTEGER PRIMARY KEY REFERENCES files(id) ON DELETE CASCADE, summary TEXT, keywords TEXT, entities TEXT, classification TEXT, enriched_at_unix INTEGER NOT NULL, enrichment_version INTEGER NOT NULL ) STRICT; CREATE TABLE enrichment_queue ( file_id INTEGER PRIMARY KEY REFERENCES files(id) ON DELETE CASCADE, queued_at_unix INTEGER NOT NULL, attempt_count INTEGER NOT NULL DEFAULT 0 ) STRICT; CREATE INDEX enrichment_queue_order ON enrichment_queue(queued_at_unix ASC);";

/// The queue of files to embed, and the model that the vectors are from.
pub const EMBEDDINGS_SQL: &'static str = "CREATE TABLE embedding_queue ( file_id INTEGER PRIMARY KEY REFERENCES files(id) ON DELETE CASCADE, queued_at_unix INTEGER NOT NULL, attempt_count INTEGER NOT NULL DEFAULT 0 ) STRICT; CREATE INDEX embedding_queue_order ON embedding_queue(queued_at_unix ASC); CREATE TABLE embedding_config ( id INTEGER PRIMARY KEY CHECK (id = 1), model TEXT NOT NULL, dimensions INTEGER NOT NULL ) STRICT;";

/// One step forward.
#[derive(Debug, Clone, Copy)]
pub struct Migration {
    pub version: u32,
    pub name: &'static str,
    pub sql: &'static str,
}

/// Every step, in order.
pub open spec fn steps() -> Seq<Migration> {
    seq![
        Migration { version: 1, name: "schema_version", sql: SCHEMA_VERSION_SQL },
        Migration { version: 2, name: "timeline", sql: TIMELINE_SQL },
        Migration { version: 3, name: "metadata", sql: METADATA_SQL },
        Migration { version: 4, name: "enrichment", sql: ENRICHMENT_SQL },
        Migration { version: 5, name: "embeddings", sql: EMBEDDINGS_SQL },
    ]
}

/// Every step, in order.
pub fn all_steps() -> (r: Vec<Migration>)
    ensures
        r@ == steps(),
{
    let r = vec![
        Migration { version: 1, name: "schema_version", sql: SCHEMA_VERSION_SQL },
        Migration { version: 2, name: "timeline", sql: TIMELINE_SQL },
        Migration { version: 3, name: "metadata", sql: METADATA_SQL },
        Migration { version: 4, name: "enrichment", sql: ENRICHMENT_SQL },
        Migration { version: 5, name: "embeddings", sql: EMBEDDINGS_SQL },
    ];
    assert(r@ =~= steps());
    r
}

/// The highest version that this build understands.
pub fn supported_version() -> (r: u32)
    ensures
        r == steps().last().version,
        forall|k: int| 0 <= k < steps().len() ==> (#[trigger] steps()[k]).version <= r,
{
    5
}

/// The version that a database has: the highest of the steps it recorded, or 0
/// where it recorded none, as a database does that is new.
pub fn current_version(recorded: &Vec<u32>) -> (r: u32)
    ensures
        r == version_of(recorded@),
{
    let mut highest: u32 = 0;
    let mut k: usize = 0;
    assert(recorded@.take(0) =~= Seq::<u32>::empty());
    while k < recorded.len()
        invariant
            0 <= k <= recorded.len(),
            highest == version_of(recorded@.take(k as int)),
        decreases recorded.len() - k,
    {
        assert(recorded@.take(k + 1).drop_last() =~= recorded@.take(k as int));
        if recorded[k] > highest {
            highest = recorded[k];
        }
        k = k + 1;
    }
    assert(recorded@.take(recorded.len() as int) =~= recorded@);
    highest
}

/// The highest of the recorded versions, or 0.
pub open spec fn version_of(recorded: Seq<u32>) -> u32
    decreases recorded.len(),
{
    if recorded.len() == 0 {
        0
    } else {
        let before = version_of(recorded.drop_last());
        if recorded.last() > before {
            recorded.last()
        } else {
            before
        }
    }
}

/// The steps, among the first `n`, that a database at a version has not taken.
pub open spec fn missing(version: u32, n: nat) -> Seq<Migration>
    decreases n,
{
    if n == 0 {
        Seq::empty()
    } else {
        let before = missing(version, (n - 1) as nat);
        if steps()[n - 1].version > version {
            before.push(steps()[n - 1])
        } else {
            before
        }
    }
}

/// The steps that a database at a version still has to take. A database that
/// was written by a newer build is refused: nothing is known of its schema.
pub fn pending_migrations(current: u32) -> (r: Result<Vec<Migration>, StoreError>)
    ensures
        match r {
            Ok(found) => current <= steps().last().version && found@ == missing(
                current,
                steps().len(),
            ),
            Err(e) => current > steps().last().version && e == (StoreError::SchemaTooNew {
                found: current,
                supported: steps().last().version,
            }),
        },
{
    let supported = supported_version();
    if current > supported {
        return Err(StoreError::SchemaTooNew { found: current, supported });
    }
    let all = all_steps();
    let mut out: Vec<Migration> = Vec::new();
    let mut k: usize = 0;
    while k < all.len()
        invariant
            0 <= k <= all.len(),
            all@ == steps(),
            out@ == missing(current, k as nat),
        decreases all.len() - k,
    {
        if all[k].version > current {
            out.push(all[k]);
        }
        k = k + 1;
    }
    Ok(out)
}

/// What a database has recorded once it has taken more steps.
pub open spec fn recorded_after(recorded: Seq<u32>, taken: Seq<Migration>) -> Seq<u32> {
    recorded + taken.map_values(|m: Migration| m.version)
}

/// Versions begin at 1 and every step has a higher one than the step before:
/// none is passed over.
pub proof fn versions_are_in_order(i: int, j: int)
    requires
        0 <= i < j < steps().len(),
    ensures
        0 < steps()[i].version < steps()[j].version,
{
}

/// A database that takes the steps it is missing has the version that this
/// build understands, and is then missing none: taking them is idempotent.
pub proof fn migrating_reaches_the_supported_version(recorded: Seq<u32>)
    requires
        version_of(recorded) <= steps().last().version,
    ensures
        ({
            let after = recorded_after(
                recorded,
                missing(version_of(recorded), steps().len()),
            );
            &&& version_of(after) == steps().last().version
            &&& missing(version_of(after), steps().len()).len() == 0
        }),
{
    let v = version_of(recorded);
    let todo = missing(v, steps().len());
    lemma_version_of_more(recorded, todo.map_values(|m: Migration| m.version));
    reveal_with_fuel(missing, 6);
    reveal_with_fuel(version_of, 6);
    let more = todo.map_values(|m: Migration| m.version);
    lemma_highest_missing(v);
    let after = recorded_after(recorded, todo);
    assert(version_of(after) == steps().last().version);
}

/// The highest step that is missing is the last one.
proof fn lemma_highest_missing(v: u32)
    ensures
        ({
            let more = missing(v, steps().len()).map_values(|m: Migration| m.version);
            v < steps().last().version ==> version_of(more) == steps().last().version
        }),
        v >= steps().last().version ==> missing(v, steps().len()).len() == 0,
        version_of(missing(v, steps().len()).map_values(|m: Migration| m.version))
            <= steps().last().version,
{
    lemma_missing_versions(v, steps().len());
    if v >= steps().last().version {
        lemma_none_missing(v, steps().len());
    }
}

proof fn lemma_none_missing(v: u32, n: nat)
    requires
        v >= steps().last().version,
        n <= steps().len(),
    ensures
        missing(v, n).len() == 0,
    decreases n,
{
    if n > 0 {
        lemma_none_missing(v, (n - 1) as nat);
    }
}

proof fn lemma_missing_versions(v: u32, n: nat)
    requires
        n <= steps().len(),
    ensures
        ({
            let more = missing(v, n).map_values(|m: Migration| m.version);
            &&& version_of(more) <= n
            &&& v < n ==> version_of(more) == n
        }),
    decreases n,
{
    if n > 0 {
        lemma_missing_versions(v, (n - 1) as nat);
        let before = missing(v, (n - 1) as nat).map_values(|m: Migration| m.version);
        let more = missing(v, n).map_values(|m: Migration| m.version);
        assert(steps()[n - 1].version == n);
        if n > v {
            assert(more =~= before.push(n as u32));
            assert(more.drop_last() =~= before);
        } else {
            assert(more =~= before);
        }
    }
}

/// The highest version of two lists together is the higher of the two.
proof fn lemma_version_of_more(a: Seq<u32>, b: Seq<u32>)
    ensures
        version_of(a + b) == (if version_of(a) >= version_of(b) {
            version_of(a)
        } else {
            version_of(b)
        }),
    decreases b.len(),
{
    if b.len() == 0 {
        assert(a + b =~= a);
    } else {
        lemma_version_of_more(a, b.drop_last());
        assert((a + b).drop_last() =~= a + b.drop_last());
        assert((a + b).last() == b.last());
    }
}

/// A database at a version is missing exactly the steps behind that version, in their
/// order. There are five of them, and each has its place for its version.
pub proof fn the_steps_behind_a_version_are_missing(version: u32, k: int)
    requires
        version <= 5,
        0 <= k < 5,
    ensures
        steps().len() == 5,
        steps()[k].version == k + 1,
        missing(version, steps().len()) == steps().skip(version as int),
{
    lemma_missing_is_a_tail(version, 5);
    assert(steps().take(5) =~= steps());
}

proof fn lemma_missing_is_a_tail(version: u32, n: nat)
    requires
        n <= steps().len(),
        version <= steps().len(),
    ensures
        missing(version, n) == (if version < n {
            steps().subrange(version as int, n as int)
        } else {
            Seq::empty()
        }),
    decreases n,
{
    if n > 0 {
        lemma_missing_is_a_tail(version, (n - 1) as nat);
        assert(steps()[n - 1].version == n);
        if version < n {
            assert(missing(version, n) =~= steps().subrange(version as int, n as int));
        }
    }
}

/// A database has the highest version that it recorded, wherever that stands, and zero
/// where it recorded none.
pub proof fn the_highest_recorded_version_counts(recorded: Seq<u32>)
    ensures
        forall|k: int| 0 <= k < recorded.len() ==> #[trigger] recorded[k] <= version_of(recorded),
        version_of(recorded) == 0 || recorded.contains(version_of(recorded)),
    decreases recorded.len(),
{
    if recorded.len() > 0 {
        let less = recorded.drop_last();
        the_highest_recorded_version_counts(less);
        assert(recorded[recorded.len() - 1] == recorded.last());
        assert forall|k: int| 0 <= k < recorded.len() implies #[trigger] recorded[k] <= version_of(
            recorded,
        ) by {
            if k < less.len() {
                assert(less[k] == recorded[k]);
            }
        }
        if less.contains(version_of(less)) {
            let k = choose|k: int| 0 <= k < less.len() && less[k] == version_of(less);
            assert(recorded[k] == version_of(less));
        }
    }
}

} // verus!
