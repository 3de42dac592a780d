//! The tables the daemon keeps, and every way of changing them.
//!
//! A row's id is its position in its table plus one: rows are only ever added,
//! never taken out, so ids have no gaps. What a file has beyond its own row
//! (metadata, queue entries) is kept in tables of the same length as `files`.
//!
//! Every change is also written to a journal. [`Store::take_writes`] hands the
//! journal out, and replaying it over the tables as they were at the previous
//! call gives the tables as they are now; that is what makes it safe to bring
//! a database on disk up to date from the journal alone.
use std::collections::HashSet;

use vstd::hash_map::StringHashMap;
use vstd::prelude::*;

use crate::embeddings::EmbeddingConfig;
use crate::enrichment::FileEnrichment;
use crate::events::NewEvent;
use crate::metadata::FileMetadata;
use crate::queue::QueueEntry;

verus! {

/// A file or directory id.
pub type FileId = i64;

/// An interned path component id.
pub type ComponentId = i64;

/// Why the store refused an operation.
#[derive(Debug, Clone, PartialEq, Eq)]
pub enum StoreError {
    /// The database was written by a newer build.
    SchemaTooNew { found: u32, supported: u32 },
    /// A path with no components: `/` or an empty string.
    EmptyPath,
    /// The embedding table was made for another model or width.
    EmbeddingDimensionMismatch(Box<crate::embeddings::DimensionMismatch>),
    /// A row refers to a row that does not exist.
    MissingReference,
    /// A vector's length is not the width the embedding table was made with.
    WrongVectorWidth,
    /// An embedding table cannot be made for vectors of this width.
    UnusableVectorWidth,
    /// There can be only one of it, and there is one already.
    Conflict,
    /// There is no room for another row.
    Full,
}

/// One row of the `files` table.
#[derive(Debug, Clone, Copy, PartialEq, Eq)]
pub struct FileRow {
    /// The containing directory; `None` for the first component of a path.
    pub parent_id: Option<FileId>,
    pub component_id: ComponentId,
    pub is_dir: bool,
    pub size_bytes: Option<i64>,
    pub mtime_unix: Option<i64>,
    /// Set when the entry was observed gone, in unix milliseconds.
    pub deleted_at: Option<i64>,
}

/// The tables as mathematical values.
#[verifier::ext_equal]
pub struct Tables {
    pub components: Seq<Seq<char>>,
    pub files: Seq<FileRow>,
    pub events: Seq<NewEvent>,
    pub metadata: Seq<Option<FileMetadata>>,
    pub extraction_queue: Seq<Option<QueueEntry>>,
    pub enrichment: Seq<Option<FileEnrichment>>,
    pub enrichment_queue: Seq<Option<QueueEntry>>,
    /// Which ids have an embedding. The embedding table refers to no other
    /// table, so an id may be among them that no file has.
    pub embedded: Set<FileId>,
    pub embedding_queue: Seq<Option<QueueEntry>>,
    pub embedding_config: Option<EmbeddingConfig>,
}

impl Tables {
    /// The tables of a database that nothing was written to yet.
    pub open spec fn empty() -> Tables {
        Tables {
            components: Seq::empty(),
            files: Seq::empty(),
            events: Seq::empty(),
            metadata: Seq::empty(),
            extraction_queue: Seq::empty(),
            enrichment: Seq::empty(),
            enrichment_queue: Seq::empty(),
            embedded: Set::empty(),
            embedding_queue: Seq::empty(),
            embedding_config: None,
        }
    }

    pub open spec fn has_file(self, id: FileId) -> bool {
        1 <= id <= self.files.len()
    }

    pub open spec fn has_component(self, id: ComponentId) -> bool {
        1 <= id <= self.components.len()
    }

    pub open spec fn has_event(self, id: i64) -> bool {
        1 <= id <= self.events.len()
    }

    /// The row of file `id`.
    pub open spec fn file(self, id: FileId) -> FileRow {
        self.files[id - 1]
    }

    /// Whether a reference is absent or names an existing file.
    pub open spec fn parent_ok(self, parent: Option<FileId>) -> bool {
        parent matches Some(p) ==> self.has_file(p)
    }

    /// What holds of every store's tables.
    pub open spec fn wf(self) -> bool {
        &&& self.components.no_duplicates()
        &&& self.components.len() <= i64::MAX
        &&& self.files.len() <= i64::MAX
        &&& self.events.len() <= i64::MAX
        &&& self.metadata.len() == self.files.len()
        &&& self.extraction_queue.len() == self.files.len()
        &&& self.enrichment.len() == self.files.len()
        &&& self.enrichment_queue.len() == self.files.len()
        &&& self.embedding_queue.len() == self.files.len()
        &&& forall|i: int|
            0 <= i < self.files.len() ==> self.has_component(
                (#[trigger] self.files[i]).component_id,
            )
        &&& forall|i: int|
            0 <= i < self.events.len() ==> self.has_file((#[trigger] self.events[i]).file_id)
        &&& self.live_entries_unique()
    }

    /// A directory never holds two live entries of the same name.
    pub open spec fn live_entries_unique(self) -> bool {
        forall|i: int, j: int|
            0 <= i < j < self.files.len() && (#[trigger] self.files[i]).deleted_at is None && (
            #[trigger] self.files[j]).deleted_at is None ==> !(self.files[i].parent_id
                == self.files[j].parent_id && self.files[i].component_id
                == self.files[j].component_id)
    }

    /// Room for `n` more rows in every table that grows.
    pub open spec fn room_for(self, n: nat) -> bool {
        &&& self.components.len() + n <= i64::MAX
        &&& self.files.len() + n <= i64::MAX
        &&& self.events.len() + n <= i64::MAX
    }

    // One function per kind of change.

    pub open spec fn add_component(self, name: Seq<char>) -> Tables {
        Tables { components: self.components.push(name), ..self }
    }

    /// A new file has no metadata and no enrichment and stands in no queue.
    pub open spec fn add_file(self, row: FileRow) -> Tables {
        Tables {
            files: self.files.push(row),
            metadata: self.metadata.push(None),
            extraction_queue: self.extraction_queue.push(None),
            enrichment: self.enrichment.push(None),
            enrichment_queue: self.enrichment_queue.push(None),
            embedding_queue: self.embedding_queue.push(None),
            ..self
        }
    }

    pub open spec fn set_file(self, id: FileId, row: FileRow) -> Tables {
        Tables { files: self.files.update(id - 1, row), ..self }
    }

    pub open spec fn add_event(self, event: NewEvent) -> Tables {
        Tables { events: self.events.push(event), ..self }
    }

    pub open spec fn set_metadata(self, id: FileId, m: FileMetadata) -> Tables {
        Tables { metadata: self.metadata.update(id - 1, Some(m)), ..self }
    }

    pub open spec fn set_extraction_queue(self, id: FileId, e: Option<QueueEntry>) -> Tables {
        Tables { extraction_queue: self.extraction_queue.update(id - 1, e), ..self }
    }

    pub open spec fn set_enrichment(self, id: FileId, e: FileEnrichment) -> Tables {
        Tables { enrichment: self.enrichment.update(id - 1, Some(e)), ..self }
    }

    pub open spec fn set_enrichment_queue(self, id: FileId, e: Option<QueueEntry>) -> Tables {
        Tables { enrichment_queue: self.enrichment_queue.update(id - 1, e), ..self }
    }

    pub open spec fn set_embedded(self, id: FileId) -> Tables {
        Tables { embedded: self.embedded.insert(id), ..self }
    }

    pub open spec fn set_embedding_queue(self, id: FileId, e: Option<QueueEntry>) -> Tables {
        Tables { embedding_queue: self.embedding_queue.update(id - 1, e), ..self }
    }

    pub open spec fn set_embedding_config(self, c: EmbeddingConfig) -> Tables {
        Tables { embedding_config: Some(c), ..self }
    }
}

/// One change to the tables, as the journal records it.
#[derive(Debug)]
pub enum Write {
    AddComponent(String),
    AddFile(FileRow),
    SetFile(FileId, FileRow),
    AddEvent(NewEvent),
    SetMetadata(FileId, FileMetadata),
    SetExtractionQueue(FileId, Option<QueueEntry>),
    SetEnrichment(FileId, FileEnrichment),
    SetEnrichmentQueue(FileId, Option<QueueEntry>),
    SetEmbedded(FileId),
    SetEmbeddingQueue(FileId, Option<QueueEntry>),
    SetEmbeddingConfig(EmbeddingConfig),
}

/// What one write does to the tables.
pub open spec fn apply_write(t: Tables, w: Write) -> Tables {
    match w {
        Write::AddComponent(name) => t.add_component(name@),
        Write::AddFile(row) => t.add_file(row),
        Write::SetFile(id, row) => t.set_file(id, row),
        Write::AddEvent(event) => t.add_event(event),
        Write::SetMetadata(id, m) => t.set_metadata(id, m),
        Write::SetExtractionQueue(id, e) => t.set_extraction_queue(id, e),
        Write::SetEnrichment(id, e) => t.set_enrichment(id, e),
        Write::SetEnrichmentQueue(id, e) => t.set_enrichment_queue(id, e),
        Write::SetEmbedded(id) => t.set_embedded(id),
        Write::SetEmbeddingQueue(id, e) => t.set_embedding_queue(id, e),
        Write::SetEmbeddingConfig(c) => t.set_embedding_config(c),
    }
}

/// What a sequence of writes does to the tables, oldest first.
pub open spec fn replay(t: Tables, writes: Seq<Write>) -> Tables
    decreases writes.len(),
{
    if writes.len() == 0 {
        t
    } else {
        apply_write(replay(t, writes.drop_last()), writes.last())
    }
}

/// The tables, an index over them, and the journal of what changed.
pub struct Store {
    components: Vec<String>,
    files: Vec<FileRow>,
    events: Vec<NewEvent>,
    metadata: Vec<Option<FileMetadata>>,
    extraction_queue: Vec<Option<QueueEntry>>,
    enrichment: Vec<Option<FileEnrichment>>,
    enrichment_queue: Vec<Option<QueueEntry>>,
    embedded: HashSet<FileId>,
    embedding_queue: Vec<Option<QueueEntry>>,
    embedding_config: Option<EmbeddingConfig>,
    /// The position of every component name.
    by_name: StringHashMap<usize>,
    /// For every component, the positions of the files that carry it.
    named: Vec<Vec<usize>>,
    journal: Vec<Write>,
    /// The tables as they were when the journal was last taken.
    base: Ghost<Tables>,
}

impl View for Store {
    type V = Tables;

    closed spec fn view(&self) -> Tables {
        Tables {
            components: self.components@.map_values(|s: String| s@),
            files: self.files@,
            events: self.events@,
            metadata: self.metadata@,
            extraction_queue: self.extraction_queue@,
            enrichment: self.enrichment@,
            enrichment_queue: self.enrichment_queue@,
            embedded: self.embedded@,
            embedding_queue: self.embedding_queue@,
            embedding_config: self.embedding_config,
        }
    }
}

/// Whether a list of positions holds exactly the files that carry component
/// number `c`.
spec fn lists_component(list: Seq<usize>, files: Seq<FileRow>, c: int) -> bool {
    &&& list.no_duplicates()
    &&& forall|k: int|
        0 <= k < list.len() ==> 0 <= #[trigger] list[k] < files.len() && files[list[k] as int].component_id
            == c + 1
    &&& forall|i: int|
        0 <= i < files.len() && (#[trigger] files[i]).component_id == c + 1 ==> list.contains(
            i as usize,
        )
}

impl Store {
    /// The tables are well formed, the indexes agree with them, and the
    /// journal leads from the tables as last taken to the tables as they are.
    pub open spec fn wf(self) -> bool {
        &&& self@.wf()
        &&& self@.files.len() <= usize::MAX
        &&& self.indexed()
    }

    pub closed spec fn indexed(self) -> bool {
        &&& self.named.len() == self.components.len()
        &&& forall|c: int|
            0 <= c < self.named.len() ==> lists_component(
                (#[trigger] self.named@[c])@,
                self.files@,
                c,
            )
        &&& forall|name: Seq<char>| #[trigger]
            self.by_name@.contains_key(name) ==> self.by_name@[name] < self.components.len()
                && self.components@[self.by_name@[name] as int]@ == name
        &&& forall|i: int|
            0 <= i < self.components.len() ==> self.by_name@.contains_key(
                (#[trigger] self.components@[i])@,
            )
        &&& replay(self.base@, self.journal@) == self@
    }

    /// The tables as they were when the journal was last taken.
    pub closed spec fn taken(self) -> Tables {
        self.base@
    }

    /// The changes since the journal was last taken, oldest first.
    pub closed spec fn pending_writes(self) -> Seq<Write> {
        self.journal@
    }

    /// A store with empty tables.
    pub fn new() -> (r: Store)
        ensures
            r.wf(),
            r@ == Tables::empty(),
            r.taken() == Tables::empty(),
            r.pending_writes().len() == 0,
    {
        let r = Store {
            components: Vec::new(),
            files: Vec::new(),
            events: Vec::new(),
            metadata: Vec::new(),
            extraction_queue: Vec::new(),
            enrichment: Vec::new(),
            enrichment_queue: Vec::new(),
            embedded: HashSet::new(),
            embedding_queue: Vec::new(),
            embedding_config: None,
            by_name: StringHashMap::new(),
            named: Vec::new(),
            journal: Vec::new(),
            base: Ghost(Tables::empty()),
        };
        assert(r@ == Tables::empty());
        r
    }

    /// Hand out the changes since the last call and start a new journal.
    ///
    /// Replaying them over the tables as they were then gives the tables as
    /// they are now.
    pub fn take_writes(&mut self) -> (r: Vec<Write>)
        requires
            old(self).wf(),
        ensures
            final(self).wf(),
            final(self)@ == old(self)@,
            final(self).taken() == old(self)@,
            final(self).pending_writes().len() == 0,
            r@ == old(self).pending_writes(),
            replay(old(self).taken(), r@) == old(self)@,
    {
        let mut out: Vec<Write> = Vec::new();
        std::mem::swap(&mut out, &mut self.journal);
        self.base = Ghost(self@);
        assert(self@ == old(self)@);
        out
    }
}

impl Store {
    /// The number of rows in `files`.
    pub fn files_len(&self) -> (r: usize)
        requires
            self.wf(),
        ensures
            r == self@.files.len(),
    {
        self.files.len()
    }

    /// The number of rows in `path_components`.
    pub fn components_len(&self) -> (r: usize)
        requires
            self.wf(),
        ensures
            r == self@.components.len(),
    {
        self.components.len()
    }

    /// The number of rows in `events`.
    pub fn events_len(&self) -> (r: usize)
        requires
            self.wf(),
        ensures
            r == self@.events.len(),
    {
        self.events.len()
    }

    /// Whether `n` more rows fit in every table that grows.
    pub fn has_room(&self, n: usize) -> (r: bool)
        requires
            self.wf(),
        ensures
            r == self@.room_for(n as nat),
    {
        let most: u64 = i64::MAX as u64;
        n as u64 <= most && self.components.len() as u64 <= most - n as u64
            && self.files.len() as u64 <= most - n as u64 && self.events.len() as u64 <= most
            - n as u64
    }

    /// Whether file `id` exists.
    pub fn has_file(&self, id: FileId) -> (r: bool)
        requires
            self.wf(),
        ensures
            r == self@.has_file(id),
    {
        1 <= id && id as u64 <= self.files.len() as u64
    }

    /// Whether component `id` exists.
    pub fn has_component(&self, id: ComponentId) -> (r: bool)
        requires
            self.wf(),
        ensures
            r == self@.has_component(id),
    {
        1 <= id && id as u64 <= self.components.len() as u64
    }

    /// The row of file `id`.
    pub fn file(&self, id: FileId) -> (r: FileRow)
        requires
            self.wf(),
            self@.has_file(id),
        ensures
            r == self@.file(id),
    {
        self.files[(id - 1) as usize]
    }

    /// The name of component `id`.
    pub fn component_name(&self, id: ComponentId) -> (r: &String)
        requires
            self.wf(),
            self@.has_component(id),
        ensures
            r@ == self@.components[id - 1],
    {
        &self.components[(id - 1) as usize]
    }

    /// The id of the component with this name, if it is interned.
    pub fn find_component(&self, name: &str) -> (r: Option<ComponentId>)
        requires
            self.wf(),
        ensures
            r matches Some(id) ==> self@.has_component(id) && self@.components[id - 1] == name@,
            r is None ==> !self@.components.contains(name@),
    {
        match self.by_name.get(name) {
            Some(i) => {
                assert(self@.components[*i as int] == name@);
                Some((*i + 1) as i64)
            },
            None => {
                assert(!self@.components.contains(name@)) by {
                    if self@.components.contains(name@) {
                        let i = choose|i: int|
                            0 <= i < self@.components.len() && self@.components[i] == name@;
                        assert(self.components@[i]@ == name@);
                    }
                }
                None
            },
        }
    }

    /// Intern a name that is not interned yet.
    pub(crate) fn add_component(&mut self, name: String) -> (r: ComponentId)
        requires
            old(self).wf(),
            !old(self)@.components.contains(name@),
            old(self)@.components.len() < i64::MAX,
        ensures
            final(self).wf(),
            final(self)@ == old(self)@.add_component(name@),
            r == final(self)@.components.len(),
            final(self).taken() == old(self).taken(),
            final(self).pending_writes() == old(self).pending_writes().push(
                Write::AddComponent(name),
            ),
    {
        let position: usize = self.components.len();
        self.by_name.insert(name.clone(), position);
        self.named.push(Vec::new());
        self.journal.push(Write::AddComponent(name.clone()));
        self.components.push(name);
        proof {
            assert(self@ == old(self)@.add_component(name@));
            assert(self.journal@.drop_last() == old(self).journal@);
            assert(self@.components.no_duplicates()) by {
                assert forall|i: int, j: int|
                    0 <= i < self@.components.len() && 0 <= j < self@.components.len() && i
                        != j implies self@.components[i] != self@.components[j] by {
                    if i == position {
                        assert(old(self)@.components.contains(self@.components[j]));
                    }
                    if j == position {
                        assert(old(self)@.components.contains(self@.components[i]));
                    }
                }
            }
            assert forall|c: int| 0 <= c < self.named.len() implies lists_component(
                (#[trigger] self.named@[c])@,
                self.files@,
                c,
            ) by {
                if c < position {
                    assert(self.named@[c] == old(self).named@[c]);
                } else {
                    assert forall|i: int|
                        0 <= i < self.files@.len() implies (#[trigger] self.files@[i]).component_id
                        != c + 1 by {
                        assert(old(self)@.has_component(old(self)@.files[i].component_id));
                    }
                }
            }
            assert forall|n: Seq<char>| #[trigger]
                self.by_name@.contains_key(n) implies self.by_name@[n] < self.components.len()
                && self.components@[self.by_name@[n] as int]@ == n by {
                if n != name@ {
                    assert(old(self).by_name@.contains_key(n));
                }
            }
            assert forall|i: int| 0 <= i < self.components.len() implies self.by_name@.contains_key(
                (#[trigger] self.components@[i])@,
            ) by {
                if i < position {
                    assert(old(self).by_name@.contains_key(old(self).components@[i]@));
                }
            }
        }
        position as i64 + 1
    }

    /// Add a row to `files`.
    pub(crate) fn add_file(&mut self, row: FileRow) -> (r: FileId)
        requires
            old(self).wf(),
            old(self)@.has_component(row.component_id),
            old(self)@.files.len() < i64::MAX,
            row.deleted_at is None ==> forall|i: int|
                0 <= i < old(self)@.files.len() && (#[trigger] old(self)@.files[i]).deleted_at
                    is None ==> !(old(self)@.files[i].parent_id == row.parent_id
                    && old(self)@.files[i].component_id == row.component_id),
        ensures
            final(self).wf(),
            final(self)@ == old(self)@.add_file(row),
            r == final(self)@.files.len(),
            final(self).taken() == old(self).taken(),
            final(self).pending_writes() == old(self).pending_writes().push(Write::AddFile(row)),
    {
        let position: usize = self.files.len();
        let slot: usize = (row.component_id - 1) as usize;
        self.named[slot].push(position);
        self.files.push(row);
        self.metadata.push(None);
        self.extraction_queue.push(None);
        self.enrichment.push(None);
        self.enrichment_queue.push(None);
        self.embedding_queue.push(None);
        self.journal.push(Write::AddFile(row));
        proof {
            assert(self@ == old(self)@.add_file(row));
            assert(self.files.len() <= usize::MAX);
            assert(self.journal@.drop_last() == old(self).journal@);
            assert forall|c: int| 0 <= c < self.named.len() implies lists_component(
                (#[trigger] self.named@[c])@,
                self.files@,
                c,
            ) by {
                let before = old(self).named@[c]@;
                let after = self.named@[c]@;
                assert(lists_component(before, old(self).files@, c));
                assert forall|i: int|
                    0 <= i < self.files@.len() && (#[trigger] self.files@[i]).component_id == c
                        + 1 implies after.contains(i as usize) by {
                    if i < position {
                        assert(old(self).files@[i].component_id == c + 1);
                        let k = choose|k: int| 0 <= k < before.len() && before[k] == i as usize;
                        assert(after[k] == i as usize);
                    } else {
                        assert(after[after.len() - 1] == i as usize);
                    }
                }
            }
        }
        position as i64 + 1
    }

    /// Replace the row of file `id`, keeping its name.
    pub(crate) fn set_file(&mut self, id: FileId, row: FileRow)
        requires
            old(self).wf(),
            old(self)@.has_file(id),
            row.component_id == old(self)@.file(id).component_id,
            row.deleted_at is None ==> forall|i: int|
                0 <= i < old(self)@.files.len() && i != id - 1 && (#[trigger] old(
                    self,
                )@.files[i]).deleted_at is None ==> !(old(self)@.files[i].parent_id
                    == row.parent_id && old(self)@.files[i].component_id == row.component_id),
        ensures
            final(self).wf(),
            final(self)@ == old(self)@.set_file(id, row),
            final(self).taken() == old(self).taken(),
            final(self).pending_writes() == old(self).pending_writes().push(
                Write::SetFile(id, row),
            ),
    {
        let position: usize = (id - 1) as usize;
        self.files.set(position, row);
        self.journal.push(Write::SetFile(id, row));
        proof {
            assert(self@ == old(self)@.set_file(id, row));
            assert(self.journal@.drop_last() == old(self).journal@);
            assert forall|c: int| 0 <= c < self.named.len() implies lists_component(
                (#[trigger] self.named@[c])@,
                self.files@,
                c,
            ) by {
                let list = self.named@[c]@;
                assert(lists_component(list, old(self).files@, c));
                assert forall|i: int|
                    0 <= i < self.files@.len() && (#[trigger] self.files@[i]).component_id == c
                        + 1 implies list.contains(i as usize) by {
                    assert(old(self).files@[i].component_id == c + 1);
                }
            }
        }
    }

    /// Move file `id` to another place in the tree: replace its row by one that
    /// may carry another name.
    pub(crate) fn move_file(&mut self, id: FileId, row: FileRow)
        requires
            old(self).wf(),
            old(self)@.has_file(id),
            old(self)@.has_component(row.component_id),
            row.deleted_at is None ==> forall|i: int|
                0 <= i < old(self)@.files.len() && i != id - 1 && (#[trigger] old(
                    self,
                )@.files[i]).deleted_at is None ==> !(old(self)@.files[i].parent_id
                    == row.parent_id && old(self)@.files[i].component_id == row.component_id),
        ensures
            final(self).wf(),
            final(self)@ == old(self)@.set_file(id, row),
            final(self).taken() == old(self).taken(),
            final(self).pending_writes() == old(self).pending_writes().push(
                Write::SetFile(id, row),
            ),
    {
        let position: usize = (id - 1) as usize;
        let before = self.files[position];
        assert(self@.has_component(self@.files[position as int].component_id));
        if before.component_id == row.component_id {
            self.set_file(id, row);
            return;
        }
        let from: usize = (before.component_id - 1) as usize;
        let to: usize = (row.component_id - 1) as usize;
        let ghost listed = self.named@[from as int]@;
        let mut at: usize = 0;
        proof {
            assert(lists_component(listed, self.files@, from as int));
            assert(listed.contains(position));
        }
        while self.named[from][at] != position
            invariant
                from < self.named.len(),
                self.named@[from as int]@ == listed,
                self.named@ == old(self).named@,
                *self == *old(self),
                listed.contains(position),
                at < listed.len(),
                forall|k: int| 0 <= k < at ==> listed[k] != position,
            decreases listed.len() - at,
        {
            assert(at + 1 < listed.len()) by {
                let k = choose|k: int| 0 <= k < listed.len() && listed[k] == position;
                assert(k > at);
            }
            assert(self.named@[from as int].len() == listed.len());
            at = at + 1;
        }
        let taken_out = self.named[from].swap_remove(at);
        self.named[to].push(position);
        self.files.set(position, row);
        self.journal.push(Write::SetFile(id, row));
        proof {
            assert(self@ == old(self)@.set_file(id, row));
            assert(self.journal@.drop_last() == old(self).journal@);
            assert forall|c: int| 0 <= c < self.named.len() implies lists_component(
                (#[trigger] self.named@[c])@,
                self.files@,
                c,
            ) by {
                let list = self.named@[c]@;
                let earlier = old(self).named@[c]@;
                assert(lists_component(earlier, old(self).files@, c));
                if c == from {
                    let last = earlier[earlier.len() - 1];
                    assert(list =~= earlier.update(at as int, last).drop_last());
                    assert forall|i: int|
                        0 <= i < self.files@.len() && (#[trigger] self.files@[i]).component_id == c
                            + 1 implies list.contains(i as usize) by {
                        assert(i != position);
                        assert(old(self).files@[i].component_id == c + 1);
                        let k = choose|k: int| 0 <= k < earlier.len() && earlier[k] == i as usize;
                        if k == earlier.len() - 1 {
                            assert(list[at as int] == i as usize);
                        } else {
                            assert(k != at);
                            assert(list[k] == i as usize);
                        }
                    }
                } else if c == to {
                    assert(list =~= earlier.push(position));
                    assert forall|i: int|
                        0 <= i < self.files@.len() && (#[trigger] self.files@[i]).component_id == c
                            + 1 implies list.contains(i as usize) by {
                        if i == position {
                            assert(list[earlier.len() as int] == i as usize);
                        } else {
                            assert(old(self).files@[i].component_id == c + 1);
                            let k = choose|k: int|
                                0 <= k < earlier.len() && earlier[k] == i as usize;
                            assert(list[k] == i as usize);
                        }
                    }
                } else {
                    assert(list == earlier);
                    assert forall|i: int|
                        0 <= i < self.files@.len() && (#[trigger] self.files@[i]).component_id == c
                            + 1 implies list.contains(i as usize) by {
                        assert(i != position);
                        assert(old(self).files@[i].component_id == c + 1);
                    }
                }
            }
        }
    }

    /// Add a row to `events`.
    pub(crate) fn add_event(&mut self, event: NewEvent) -> (r: i64)
        requires
            old(self).wf(),
            old(self)@.has_file(event.file_id),
            old(self)@.events.len() < i64::MAX,
        ensures
            final(self).wf(),
            final(self)@ == old(self)@.add_event(event),
            r == final(self)@.events.len(),
            final(self).taken() == old(self).taken(),
            final(self).pending_writes() == old(self).pending_writes().push(Write::AddEvent(event)),
    {
        let position: usize = self.events.len();
        self.events.push(event);
        self.journal.push(Write::AddEvent(event));
        proof {
            assert(self@ == old(self)@.add_event(event));
            assert(self.journal@.drop_last() == old(self).journal@);
        }
        position as i64 + 1
    }
}

impl Store {
    /// Replace the metadata of file `id`.
    pub(crate) fn set_metadata(&mut self, id: FileId, m: FileMetadata)
        requires
            old(self).wf(),
            old(self)@.has_file(id),
        ensures
            final(self).wf(),
            final(self)@ == old(self)@.set_metadata(id, m),
            final(self).taken() == old(self).taken(),
            final(self).pending_writes() == old(self).pending_writes().push(
                Write::SetMetadata(id, m),
            ),
    {
        let position: usize = (id - 1) as usize;
        self.journal.push(Write::SetMetadata(id, m.clone()));
        self.metadata.set(position, Some(m));
        proof {
            assert(self@ == old(self)@.set_metadata(id, m));
            assert(self.journal@.drop_last() == old(self).journal@);
        }
    }

    /// Replace or clear the extraction queue entry of file `id`.
    pub(crate) fn set_extraction_queue(&mut self, id: FileId, e: Option<QueueEntry>)
        requires
            old(self).wf(),
            old(self)@.has_file(id),
        ensures
            final(self).wf(),
            final(self)@ == old(self)@.set_extraction_queue(id, e),
            final(self).taken() == old(self).taken(),
            final(self).pending_writes() == old(self).pending_writes().push(
                Write::SetExtractionQueue(id, e),
            ),
    {
        let position: usize = (id - 1) as usize;
        self.journal.push(Write::SetExtractionQueue(id, e));
        self.extraction_queue.set(position, e);
        proof {
            assert(self@ == old(self)@.set_extraction_queue(id, e));
            assert(self.journal@.drop_last() == old(self).journal@);
        }
    }

    /// Replace the enrichment of file `id`.
    pub(crate) fn set_enrichment(&mut self, id: FileId, e: FileEnrichment)
        requires
            old(self).wf(),
            old(self)@.has_file(id),
        ensures
            final(self).wf(),
            final(self)@ == old(self)@.set_enrichment(id, e),
            final(self).taken() == old(self).taken(),
            final(self).pending_writes() == old(self).pending_writes().push(
                Write::SetEnrichment(id, e),
            ),
    {
        let position: usize = (id - 1) as usize;
        self.journal.push(Write::SetEnrichment(id, e.clone()));
        self.enrichment.set(position, Some(e));
        proof {
            assert(self@ == old(self)@.set_enrichment(id, e));
            assert(self.journal@.drop_last() == old(self).journal@);
        }
    }

    /// Replace or clear the enrichment queue entry of file `id`.
    pub(crate) fn set_enrichment_queue(&mut self, id: FileId, e: Option<QueueEntry>)
        requires
            old(self).wf(),
            old(self)@.has_file(id),
        ensures
            final(self).wf(),
            final(self)@ == old(self)@.set_enrichment_queue(id, e),
            final(self).taken() == old(self).taken(),
            final(self).pending_writes() == old(self).pending_writes().push(
                Write::SetEnrichmentQueue(id, e),
            ),
    {
        let position: usize = (id - 1) as usize;
        self.journal.push(Write::SetEnrichmentQueue(id, e));
        self.enrichment_queue.set(position, e);
        proof {
            assert(self@ == old(self)@.set_enrichment_queue(id, e));
            assert(self.journal@.drop_last() == old(self).journal@);
        }
    }

    /// Replace or clear the embedding queue entry of file `id`.
    pub(crate) fn set_embedding_queue(&mut self, id: FileId, e: Option<QueueEntry>)
        requires
            old(self).wf(),
            old(self)@.has_file(id),
        ensures
            final(self).wf(),
            final(self)@ == old(self)@.set_embedding_queue(id, e),
            final(self).taken() == old(self).taken(),
            final(self).pending_writes() == old(self).pending_writes().push(
                Write::SetEmbeddingQueue(id, e),
            ),
    {
        let position: usize = (id - 1) as usize;
        self.journal.push(Write::SetEmbeddingQueue(id, e));
        self.embedding_queue.set(position, e);
        proof {
            assert(self@ == old(self)@.set_embedding_queue(id, e));
            assert(self.journal@.drop_last() == old(self).journal@);
        }
    }

    /// Note that `id` has an embedding.
    pub(crate) fn set_embedded(&mut self, id: FileId)
        requires
            old(self).wf(),
        ensures
            final(self).wf(),
            final(self)@ == old(self)@.set_embedded(id),
            final(self).taken() == old(self).taken(),
            final(self).pending_writes() == old(self).pending_writes().push(Write::SetEmbedded(id)),
    {
        self.journal.push(Write::SetEmbedded(id));
        self.embedded.insert(id);
        proof {
            broadcast use vstd::std_specs::hash::group_hash_axioms;

            assert(self@ == old(self)@.set_embedded(id));
            assert(self.journal@.drop_last() == old(self).journal@);
        }
    }

    /// Record the model and width of the embedding table.
    pub(crate) fn set_embedding_config(&mut self, c: EmbeddingConfig)
        requires
            old(self).wf(),
        ensures
            final(self).wf(),
            final(self)@ == old(self)@.set_embedding_config(c),
            final(self).taken() == old(self).taken(),
            final(self).pending_writes() == old(self).pending_writes().push(
                Write::SetEmbeddingConfig(c),
            ),
    {
        self.journal.push(Write::SetEmbeddingConfig(c.clone()));
        self.embedding_config = Some(c);
        proof {
            assert(self@ == old(self)@.set_embedding_config(c));
            assert(self.journal@.drop_last() == old(self).journal@);
        }
    }
}

// Reading one row.

impl Store {
    /// The positions of the files that carry a component, in no given order.
    pub(crate) fn files_named(&self, component: ComponentId) -> (r: &[usize])
        requires
            self.wf(),
        ensures
            forall|k: int| 0 <= k < r@.len() ==> 0 <= #[trigger] r@[k] < self@.files.len(),
            forall|i: int|
                0 <= i < self@.files.len() && (#[trigger] self@.files[i]).component_id == component
                    ==> r@.contains(i as usize),
    {
        if self.has_component(component) {
            let list = &self.named[(component - 1) as usize];
            assert(lists_component(list@, self.files@, component - 1));
            list.as_slice()
        } else {
            assert forall|i: int| 0 <= i < self@.files.len() implies (
            #[trigger] self@.files[i]).component_id != component by {
                assert(self@.has_component(self@.files[i].component_id));
            }
            &[]
        }
    }

    /// The event with this id.
    pub fn event(&self, id: i64) -> (r: NewEvent)
        requires
            self.wf(),
            self@.has_event(id),
        ensures
            r == self@.events[id - 1],
    {
        assert(self.events.len() <= usize::MAX);
        self.events[(id - 1) as usize]
    }

    /// The metadata of file `id`.
    pub fn metadata_of(&self, id: FileId) -> (r: &Option<FileMetadata>)
        requires
            self.wf(),
            self@.has_file(id),
        ensures
            *r == self@.metadata[id - 1],
    {
        &self.metadata[(id - 1) as usize]
    }

    /// The enrichment of file `id`.
    pub fn enrichment_of(&self, id: FileId) -> (r: &Option<FileEnrichment>)
        requires
            self.wf(),
            self@.has_file(id),
        ensures
            *r == self@.enrichment[id - 1],
    {
        &self.enrichment[(id - 1) as usize]
    }

    /// Whether `id` has an embedding.
    pub fn is_embedded(&self, id: FileId) -> (r: bool)
        ensures
            r == self@.embedded.contains(id),
    {
        proof {
            broadcast use vstd::std_specs::hash::group_hash_axioms;

        }
        self.embedded.contains(&id)
    }

    /// The extraction queue, one place per file.
    pub(crate) fn extraction_slots(&self) -> (r: &Vec<Option<QueueEntry>>)
        ensures
            r@ == self@.extraction_queue,
    {
        &self.extraction_queue
    }

    /// The enrichment queue, one place per file.
    pub(crate) fn enrichment_slots(&self) -> (r: &Vec<Option<QueueEntry>>)
        ensures
            r@ == self@.enrichment_queue,
    {
        &self.enrichment_queue
    }

    /// The embedding queue, one place per file.
    pub(crate) fn embedding_slots(&self) -> (r: &Vec<Option<QueueEntry>>)
        ensures
            r@ == self@.embedding_queue,
    {
        &self.embedding_queue
    }

    /// The recorded model and width of the embedding table.
    pub(crate) fn embedding_config_ref(&self) -> (r: &Option<EmbeddingConfig>)
        ensures
            *r == self@.embedding_config,
    {
        &self.embedding_config
    }
}

// Laws.

/// A file that is new is known for its row and nothing else: nothing was extracted from it,
/// no model was asked about it, and it stands in no queue. Every other file is as it was.
pub proof fn a_new_file_is_known_for_nothing_else(t: Tables, row: FileRow)
    requires
        t.wf(),
        t.files.len() < i64::MAX,
    ensures
        ({
            let u = t.add_file(row);
            let k = t.files.len() as int;
            &&& u.files == t.files.push(row)
            &&& u.metadata[k] is None
            &&& u.enrichment[k] is None
            &&& u.extraction_queue[k] is None
            &&& u.enrichment_queue[k] is None
            &&& u.embedding_queue[k] is None
            &&& forall|j: int|
                0 <= j < k ==> #[trigger] u.metadata[j] == t.metadata[j] && u.enrichment[j]
                    == t.enrichment[j] && u.extraction_queue[j] == t.extraction_queue[j]
                    && u.enrichment_queue[j] == t.enrichment_queue[j] && u.embedding_queue[j]
                    == t.embedding_queue[j]
            &&& u.events == t.events && u.components == t.components && u.embedded == t.embedded
        }),
{
}

/// Changes that are made one after another do what the first of them do and then what the
/// others do.
pub proof fn changes_follow_one_another(t: Tables, writes: Seq<Write>, more: Seq<Write>)
    ensures
        replay(t, writes + more) == replay(replay(t, writes), more),
        replay(t, Seq::empty()) == t,
    decreases more.len(),
{
    if more.len() == 0 {
        assert(writes + more =~= writes);
    } else {
        changes_follow_one_another(t, writes, more.drop_last());
        assert((writes + more).drop_last() =~= writes + more.drop_last());
        assert((writes + more).last() == more.last());
    }
}

} // verus!
