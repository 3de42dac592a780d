//! The filesystem observer's record of what it saw: a walk over a tree, and
//! single paths as they change.
//!
//! Walking and reading metadata happen outside; what they yield comes in here
//! one entry at a time. An entry is folded into the store together with the
//! event that tells of it, so wherever a walk is cut short, what it recorded it
//! has also told. The walk itself holds nothing of what it saw: its driver is
//! asked to write out what has come together, one batch at a time.
use vstd::prelude::*;

use crate::events::{append, references_exist, EventKind, NewEvent};
use crate::fspath::{
    components_of, dirs_below, dirs_between, file_name, file_name_of, parts_of, path_parts, texts,
};
use crate::paths::{
    chosen, dir_chain, ensure_dir_chain, ensure_dirs, find_entry, intern, same_id, upsert,
    upsert_entry, Interner,
};
use crate::ranked::{how_many, lemma_how_many, lemma_how_many_alike};
use crate::store::{ComponentId, FileId, FileRow, Store, StoreError, Tables};
use crate::text::same_text;

verus! {

/// Events recorded before what has come together is written out.
pub const BATCH_SIZE: usize = 1024;

/// Batches written before the write-ahead log is folded back.
pub const BATCHES_PER_CHECKPOINT: usize = 16;

/// Why a scan or a record failed.
#[derive(Debug)]
pub enum ScanError {
    Store(StoreError),
    /// The watch root does not exist.
    MissingRoot(String),
}

/// What a scan did.
#[derive(Debug, Clone, Copy, PartialEq, Eq)]
pub struct ScanSummary {
    pub files_seen: u64,
    pub dirs_seen: u64,
    pub events_recorded: u64,
    /// Entries skipped because they or their metadata could not be read.
    pub skipped: u64,
}

impl Default for ScanSummary {
    fn default() -> (r: ScanSummary)
        ensures
            r == (ScanSummary { files_seen: 0, dirs_seen: 0, events_recorded: 0, skipped: 0 }),
    {
        ScanSummary { files_seen: 0, dirs_seen: 0, events_recorded: 0, skipped: 0 }
    }
}

/// Options for a scan.
#[derive(Debug, Clone)]
pub struct ScanOptions {
    /// Directory names to skip entirely.
    pub skip_dirs: Vec<String>,
    /// Follow symlinks. Off by default: a loop of links would never end.
    pub follow_symlinks: bool,
    /// Stop after this many entries, if set.
    pub max_entries: Option<u64>,
}

/// The directory names skipped by default.
pub open spec fn default_skip_dirs() -> Seq<Seq<char>> {
    seq![".git"@, ".dafs"@, "node_modules"@, "target"@, ".cache"@, "__pycache__"@]
}

impl Default for ScanOptions {
    fn default() -> (r: ScanOptions)
        ensures
            texts(r.skip_dirs@) == default_skip_dirs(),
            !r.follow_symlinks,
            r.max_entries is None,
    {
        let mut skip_dirs: Vec<String> = Vec::new();
        skip_dirs.push(".git".to_owned());
        skip_dirs.push(".dafs".to_owned());
        skip_dirs.push("node_modules".to_owned());
        skip_dirs.push("target".to_owned());
        skip_dirs.push(".cache".to_owned());
        skip_dirs.push("__pycache__".to_owned());
        assert(texts(skip_dirs@) =~= default_skip_dirs());
        ScanOptions { skip_dirs, follow_symlinks: false, max_entries: None }
    }
}

/// What reading an entry's metadata gave.
#[derive(Debug, Clone, Copy, PartialEq, Eq)]
pub struct Stat {
    pub is_dir: bool,
    /// The entry's length in bytes.
    pub len: u64,
    /// When it was last modified, in unix seconds, if that is known.
    pub mtime_unix: Option<i64>,
}

/// The size that is recorded of an entry: none of a directory.
pub open spec fn recorded_size(stat: Stat) -> Option<i64> {
    if stat.is_dir {
        None
    } else {
        Some(stat.len as i64)
    }
}

pub(crate) fn size_of_stat(stat: &Stat) -> (r: Option<i64>)
    ensures
        r == recorded_size(*stat),
{
    if stat.is_dir {
        None
    } else {
        Some(stat.len as i64)
    }
}

/// One step of a walk.
#[derive(Debug)]
pub enum Walked {
    /// An entry that could not be listed.
    Unreadable,
    /// An entry, with its metadata where that could be read.
    Entry { path: String, depth: usize, is_dir: bool, stat: Option<Stat> },
}

/// Whether a name is on the skip list.
pub open spec fn is_listed(names: Seq<String>, name: Seq<char>) -> bool {
    exists|i: int| 0 <= i < names.len() && (#[trigger] names[i])@ == name
}

fn list_holds(names: &[String], name: &str) -> (r: bool)
    ensures
        r == is_listed(names@, name@),
{
    let mut k: usize = 0;
    while k < names.len()
        invariant
            0 <= k <= names@.len(),
            forall|j: int| 0 <= j < k ==> (#[trigger] names@[j])@ != name@,
        decreases names@.len() - k,
    {
        if same_text(names[k].as_str(), name) {
            return true;
        }
        k = k + 1;
    }
    false
}

/// Whether a walk leaves an entry out, with all that is below it.
///
/// Only directories are left out, by their name, and never the root itself:
/// skipping that would silently scan nothing at all.
pub fn is_skipped(is_dir: bool, depth: usize, name: &str, options: &ScanOptions) -> (r: bool)
    ensures
        r == (is_dir && depth > 0 && is_listed(options.skip_dirs@, name@)),
{
    is_dir && depth > 0 && list_holds(options.skip_dirs.as_slice(), name)
}

/// Whether a path is inside, or is, an entry that the scanner would skip.
pub fn is_excluded(path: &str, skip_dirs: &[String]) -> (r: bool)
    ensures
        r == (exists|i: int|
            0 <= i < parts_of(path@).len() && crate::fspath::is_normal(parts_of(path@)[i])
                && #[trigger] is_listed(skip_dirs@, parts_of(path@)[i])),
{
    let whole = path_parts(path);
    let mut k: usize = 0;
    while k < whole.parts.len()
        invariant
            0 <= k <= whole.parts.len(),
            texts(whole.parts@) == parts_of(path@),
            forall|i: int|
                0 <= i < k ==> !(crate::fspath::is_normal(parts_of(path@)[i])
                    && #[trigger] is_listed(skip_dirs@, parts_of(path@)[i])),
        decreases whole.parts.len() - k,
    {
        let part = &whole.parts[k];
        assert(parts_of(path@)[k as int] == part@);
        if !same_text(part.as_str(), ".") && !same_text(part.as_str(), "..") && list_holds(
            skip_dirs,
            part.as_str(),
        ) {
            assert(is_listed(skip_dirs@, parts_of(path@)[k as int]));
            return true;
        }
        k = k + 1;
    }
    false
}

/// The live row at a place, if there is one.
pub open spec fn live_row(t: Tables, parent: Option<FileId>, component: ComponentId) -> Option<
    FileRow,
> {
    match chosen(t.files, parent, component) {
        Some(i) => if t.files[i].deleted_at is None {
            Some(t.files[i])
        } else {
            None
        },
        None => None,
    }
}

/// What happened to an entry, judged by what was recorded of it before.
/// Nothing did where size and time are the same, and a directory never has an
/// event: its time changes with every child.
pub open spec fn change_kind(before: Option<FileRow>, stat: Stat) -> Option<EventKind> {
    if stat.is_dir {
        None
    } else {
        match before {
            None => Some(EventKind::Created),
            Some(row) => if row.size_bytes != recorded_size(stat) || row.mtime_unix
                != stat.mtime_unix {
                Some(EventKind::Modified)
            } else {
                None
            },
        }
    }
}

/// The tables with an entry below a root observed, the entry's id, and what
/// happened to it.
pub open spec fn observe(
    t: Tables,
    root_id: FileId,
    dirs: Seq<Seq<char>>,
    name: Seq<char>,
    stat: Stat,
) -> (Tables, FileId, Option<EventKind>) {
    let (above, parent) = dir_chain(t, Some(root_id), dirs);
    let (named, component) = intern(above, name);
    let (after, id) = upsert(
        named,
        parent,
        component,
        stat.is_dir,
        recorded_size(stat),
        stat.mtime_unix,
    );
    (after, id, change_kind(live_row(named, parent, component), stat))
}

/// Observe one entry below a root.
pub(crate) fn observe_entry(
    store: &mut Store,
    interner: &mut Interner,
    root_id: FileId,
    dirs: &Vec<String>,
    name: &str,
    stat: &Stat,
) -> (r: (FileId, Option<EventKind>))
    requires
        old(store).wf(),
        old(interner).agrees(old(store)@),
        old(store)@.has_file(root_id),
        old(store)@.room_for((dirs.len() + 1) as nat),
    ensures
        final(store).wf(),
        final(store).taken() == old(store).taken(),
        final(interner).agrees(final(store)@),
        (final(store)@, r.0, r.1) == observe(
            old(store)@,
            root_id,
            texts(dirs@),
            name@,
            *stat,
        ),
        final(store)@.has_file(r.0),
        final(store)@.files.len() >= old(store)@.files.len(),
        final(store)@.components.len() >= old(store)@.components.len(),
        final(store)@.components.len() <= old(store)@.components.len() + dirs.len() + 1,
        final(store)@.files.len() <= old(store)@.files.len() + dirs.len() + 1,
        final(store)@.events == old(store)@.events,
{
    let parent = ensure_dirs(store, interner, Some(root_id), dirs);
    // A directory name repeats across the tree and is worth caching; a file
    // name is nearly always distinct.
    let component = if stat.is_dir {
        interner.intern_dir(store, name)
    } else {
        interner.intern_leaf(store, name)
    };
    let ghost named = store@;
    let before = match find_entry(store, parent, component) {
        Some(id) => {
            let row = store.file(id);
            if row.deleted_at.is_none() {
                Some(row)
            } else {
                None
            }
        },
        None => None,
    };
    assert(before == live_row(named, parent, component));
    let size = size_of_stat(stat);
    let kind = if stat.is_dir {
        None
    } else {
        match before {
            None => Some(EventKind::Created),
            Some(row) => if !same_id(row.size_bytes, size) || !same_id(
                row.mtime_unix,
                stat.mtime_unix,
            ) {
                Some(EventKind::Modified)
            } else {
                None
            },
        }
    };
    assert(named.parent_ok(parent));
    match upsert_entry(store, parent, component, stat.is_dir, size, stat.mtime_unix) {
        Ok(id) => (id, kind),
        Err(_) => {
            assert(false);
            (root_id, None)
        },
    }
}

/// The name a walk gives an entry.
pub open spec fn entry_name(path: Seq<char>) -> Seq<char> {
    match file_name_of(path) {
        Some(name) => name,
        None => path,
    }
}

/// The event of an entry, at a given time.
pub open spec fn entry_event(id: FileId, kind: EventKind, at: i64, size: Option<i64>) -> NewEvent {
    NewEvent {
        file_id: id,
        kind,
        at_unix_ms: at,
        size_bytes: size,
        prev_parent_id: None,
        prev_component_id: None,
    }
}

/// Record one entry of a walk, giving an event where it is a change.
pub fn record_entry(
    store: &mut Store,
    interner: &mut Interner,
    root: &str,
    root_id: FileId,
    path: &str,
    stat: &Stat,
    at_unix_ms: i64,
) -> (r: Option<NewEvent>)
    requires
        old(store).wf(),
        old(interner).agrees(old(store)@),
        old(store)@.has_file(root_id),
        old(store)@.room_for(parts_of(path@).len() + 1),
    ensures
        final(store).wf(),
        final(store).taken() == old(store).taken(),
        final(interner).agrees(final(store)@),
        ({
            let (after, id, kind) = observe(
                old(store)@,
                root_id,
                dirs_below(root@, path@),
                entry_name(path@),
                *stat,
            );
            &&& final(store)@ == after
            &&& r == (match kind {
                Some(k) => Some(entry_event(id, k, at_unix_ms, recorded_size(*stat))),
                None => None,
            })
        }),
        r matches Some(e) ==> references_exist(final(store)@, e),
        final(store)@.files.len() >= old(store)@.files.len(),
        final(store)@.components.len() >= old(store)@.components.len(),
        final(store)@.components.len() <= old(store)@.components.len() + parts_of(path@).len() + 1,
        final(store)@.files.len() <= old(store)@.files.len() + parts_of(path@).len() + 1,
        final(store)@.events == old(store)@.events,
{
    let dirs = dirs_between(root, path);
    let name = match file_name(path) {
        Some(name) => name,
        None => path.to_owned(),
    };
    let (id, kind) = observe_entry(store, interner, root_id, &dirs, name.as_str(), stat);
    match kind {
        Some(k) => Some(
            NewEvent {
                file_id: id,
                kind: k,
                at_unix_ms,
                size_bytes: size_of_stat(stat),
                prev_parent_id: None,
                prev_component_id: None,
            },
        ),
        None => None,
    }
}

// A walk, step by step.

/// What a walk's driver does next.
#[derive(Debug, Clone, Copy, PartialEq, Eq, Structural)]
pub enum Step {
    /// Hand in the next entry.
    Continue,
    /// Write out what has come together, then hand in the next entry.
    Flush,
    /// Write out what has come together and fold the write-ahead log back, then
    /// hand in the next entry.
    Checkpoint,
    /// The entry limit is reached: stop walking.
    Stop,
}

/// Where a walk stands.
#[verifier::ext_equal]
pub struct ScanState {
    pub root: Seq<char>,
    pub root_id: FileId,
    pub summary: ScanSummary,
    /// Events recorded since the driver was last asked to write them out.
    pub waiting: nat,
    /// Batches written out since the write-ahead log was last folded back.
    pub batches: nat,
}

/// The tables with what happened to an entry told, if anything did.
pub open spec fn told(
    t: Tables,
    id: FileId,
    kind: Option<EventKind>,
    at: i64,
    size: Option<i64>,
) -> Tables {
    match kind {
        Some(k) => t.add_event(entry_event(id, k, at, size)),
        None => t,
    }
}

/// Whether the entry limit is reached.
pub open spec fn limit_reached(s: ScanSummary, options: ScanOptions) -> bool {
    options.max_entries matches Some(max) && s.files_seen + s.dirs_seen >= max
}

/// The summary with one more entry skipped.
pub open spec fn with_skip(s: ScanSummary) -> ScanSummary {
    ScanSummary { skipped: (s.skipped + 1) as u64, ..s }
}

/// The summary with one more entry seen, which may have given an event.
pub open spec fn with_seen(s: ScanSummary, is_dir: bool, event: bool) -> ScanSummary {
    ScanSummary {
        files_seen: if is_dir {
            s.files_seen
        } else {
            (s.files_seen + 1) as u64
        },
        dirs_seen: if is_dir {
            (s.dirs_seen + 1) as u64
        } else {
            s.dirs_seen
        },
        events_recorded: if event {
            (s.events_recorded + 1) as u64
        } else {
            s.events_recorded
        },
        skipped: s.skipped,
    }
}

/// Whether an entry of a walk is, or lies in, a directory below the root that
/// the options leave out.
pub open spec fn is_left_out(root: Seq<char>, item: Walked, options: ScanOptions) -> bool {
    match item {
        Walked::Unreadable => false,
        Walked::Entry { path, depth, is_dir, .. } => depth > 0 && ((is_dir && is_listed(
            options.skip_dirs@,
            entry_name(path@),
        )) || exists|k: int|
            0 <= k < dirs_below(root, path@).len() && is_listed(
                options.skip_dirs@,
                #[trigger] dirs_below(root, path@)[k],
            )),
    }
}

/// The entries of a walk without those that are left out.
pub open spec fn kept(root: Seq<char>, items: Seq<Walked>, options: ScanOptions) -> Seq<Walked>
    decreases items.len(),
{
    if items.len() == 0 {
        items
    } else if is_left_out(root, items.last(), options) {
        kept(root, items.drop_last(), options)
    } else {
        kept(root, items.drop_last(), options).push(items.last())
    }
}

/// Nothing that is left out is kept, and nothing else is lost.
pub proof fn what_is_left_out_is_not_kept(
    root: Seq<char>,
    items: Seq<Walked>,
    options: ScanOptions,
    item: Walked,
)
    ensures
        kept(root, items, options).contains(item) <==> items.contains(item) && !is_left_out(
            root,
            item,
            options,
        ),
    decreases items.len(),
{
    if items.len() > 0 {
        let shorter = items.drop_last();
        let fewer = kept(root, shorter, options);
        let all = kept(root, items, options);
        what_is_left_out_is_not_kept(root, shorter, options, item);
        assert(items =~= shorter.push(items.last()));
        if items.contains(item) && !shorter.contains(item) {
            let k = choose|k: int| 0 <= k < items.len() && items[k] == item;
            assert(k == items.len() - 1) by {
                if k < items.len() - 1 {
                    assert(shorter[k] == item);
                }
            }
        }
        if shorter.contains(item) {
            let k = choose|k: int| 0 <= k < shorter.len() && shorter[k] == item;
            assert(items[k] == item);
        }
        if !is_left_out(root, items.last(), options) {
            assert(all == fewer.push(items.last()));
            assert(all[fewer.len() as int] == items.last());
            if fewer.contains(item) {
                let k = choose|k: int| 0 <= k < fewer.len() && fewer[k] == item;
                assert(all[k] == item);
            }
            if all.contains(item) && !fewer.contains(item) {
                let k = choose|k: int| 0 <= k < all.len() && all[k] == item;
                assert(k == fewer.len()) by {
                    if k < fewer.len() {
                        assert(fewer[k] == item);
                    }
                }
            }
        }
        assert(items[items.len() - 1] == items.last());
    }
}

/// Whether an entry of a walk is left out.
#[verifier::loop_isolation(false)]
fn leaves_out(root: &str, item: &Walked, options: &ScanOptions) -> (r: bool)
    ensures
        r == is_left_out(root@, *item, *options),
{
    match item {
        Walked::Unreadable => false,
        Walked::Entry { path, depth, is_dir, .. } => {
            if *depth == 0 {
                return false;
            }
            let name = match file_name(path.as_str()) {
                Some(name) => name,
                None => path.clone(),
            };
            if is_skipped(*is_dir, *depth, name.as_str(), options) {
                return true;
            }
            let dirs = dirs_between(root, path.as_str());
            let ghost names = dirs_below(root@, path@);
            assert(texts(dirs@) == names);
            let mut k: usize = 0;
            while k < dirs.len()
                invariant
                    0 <= k <= dirs.len(),
                    texts(dirs@) == names,
                    forall|j: int|
                        0 <= j < k ==> !is_listed(options.skip_dirs@, #[trigger] names[j]),
                decreases dirs.len() - k,
            {
                assert(names[k as int] == dirs@[k as int]@);
                if list_holds(options.skip_dirs.as_slice(), dirs[k].as_str()) {
                    return true;
                }
                k = k + 1;
            }
            false
        },
    }
}

/// One step of a walk: the tables and the walk after it, and what to do next.
pub open spec fn scan_step(
    t: Tables,
    s: ScanState,
    item: Walked,
    options: ScanOptions,
    at: i64,
) -> (Tables, ScanState, Step) {
    if limit_reached(s.summary, options) {
        (t, s, Step::Stop)
    } else {
        match item {
            Walked::Unreadable => (
                t,
                ScanState { summary: with_skip(s.summary), ..s },
                Step::Continue,
            ),
            Walked::Entry { path, depth, is_dir, stat } => if depth == 0 {
                (t, s, Step::Continue)
            } else {
                match stat {
                    None => (
                        t,
                        ScanState { summary: with_skip(s.summary), ..s },
                        Step::Continue,
                    ),
                    Some(stat) => {
                        let (after, id, kind) = observe(
                            t,
                            s.root_id,
                            dirs_below(s.root, path@),
                            entry_name(path@),
                            stat,
                        );
                        let tables = told(after, id, kind, at, recorded_size(stat));
                        let summary = with_seen(s.summary, is_dir, kind is Some);
                        let waiting = if kind is Some {
                            s.waiting + 1
                        } else {
                            s.waiting
                        };
                        if waiting < BATCH_SIZE {
                            (tables, ScanState { summary, waiting, ..s }, Step::Continue)
                        } else if s.batches + 1 < BATCHES_PER_CHECKPOINT {
                            (
                                tables,
                                ScanState { summary, waiting: 0, batches: s.batches + 1, ..s },
                                Step::Flush,
                            )
                        } else {
                            (
                                tables,
                                ScanState { summary, waiting: 0, batches: 0, ..s },
                                Step::Checkpoint,
                            )
                        }
                    },
                }
            },
        }
    }
}

/// A walk over one root.
pub struct Scan {
    root: String,
    root_id: FileId,
    summary: ScanSummary,
    waiting: usize,
    batches: usize,
}

impl View for Scan {
    type V = ScanState;

    closed spec fn view(&self) -> ScanState {
        ScanState {
            root: self.root@,
            root_id: self.root_id,
            summary: self.summary,
            waiting: self.waiting as nat,
            batches: self.batches as nat,
        }
    }
}

impl ScanState {
    /// The root is known to the tables, and less than a batch waits.
    pub open spec fn wf(self, t: Tables) -> bool {
        &&& t.has_file(self.root_id)
        &&& self.waiting < BATCH_SIZE
        &&& self.batches < BATCHES_PER_CHECKPOINT
    }

    /// None of the counters is at its end.
    pub open spec fn can_count(self) -> bool {
        &&& self.summary.files_seen + self.summary.dirs_seen < u64::MAX
        &&& self.summary.events_recorded < u64::MAX
        &&& self.summary.skipped < u64::MAX
    }
}

/// Why a walk of `root` cannot start: the root does not exist, or it names
/// nothing.
pub open spec fn is_refusal(e: ScanError, root: Seq<char>, root_exists: bool) -> bool {
    if root_exists {
        components_of(root).len() == 0 && (e matches ScanError::Store(s) && s is EmptyPath)
    } else {
        e matches ScanError::MissingRoot(p) && p@ == root
    }
}

/// How many rows of each table one step may add at most.
pub open spec fn step_room(item: Walked) -> nat {
    match item {
        Walked::Unreadable => 0,
        Walked::Entry { path, .. } => parts_of(path@).len() + 1,
    }
}

impl Scan {
    /// Start a walk: the root's own chain of directories is recorded once, up
    /// front.
    pub fn begin(store: &mut Store, interner: &mut Interner, root: &str, root_exists: bool) -> (r: Result<
        Scan,
        ScanError,
    >)
        requires
            old(store).wf(),
            old(interner).agrees(old(store)@),
            old(store)@.room_for(components_of(root@).len()),
        ensures
            final(store).wf(),
            final(store).taken() == old(store).taken(),
            final(interner).agrees(final(store)@),
            match r {
                Ok(scan) => {
                    &&& root_exists && components_of(root@).len() > 0
                    &&& (final(store)@, Some(scan@.root_id)) == dir_chain(
                        old(store)@,
                        None,
                        components_of(root@),
                    )
                    &&& scan@.wf(final(store)@)
                    &&& scan@.root == root@
                    &&& scan@.waiting == 0
                    &&& scan@.batches == 0
                    &&& scan@.summary == (ScanSummary {
                        files_seen: 0,
                        dirs_seen: 0,
                        events_recorded: 0,
                        skipped: 0,
                    })
                },
                Err(e) => {
                    &&& final(store)@ == old(store)@
                    &&& *final(interner) == *old(interner)
                    &&& is_refusal(e, root@, root_exists)
                },
            },
    {
        if !root_exists {
            return Err(ScanError::MissingRoot(root.to_owned()));
        }
        match ensure_dir_chain(store, interner, root) {
            Ok(root_id) => Ok(
                Scan {
                    root: root.to_owned(),
                    root_id,
                    summary: ScanSummary::default(),
                    waiting: 0,
                    batches: 0,
                },
            ),
            Err(e) => Err(ScanError::Store(e)),
        }
    }

    /// Take in one step of the walk. What the options leave out is passed over
    /// as if it were not there.
    pub fn step(
        &mut self,
        store: &mut Store,
        interner: &mut Interner,
        item: &Walked,
        options: &ScanOptions,
        at_unix_ms: i64,
    ) -> (r: Step)
        requires
            old(store).wf(),
            old(interner).agrees(old(store)@),
            old(self)@.wf(old(store)@),
            old(self)@.can_count(),
            old(store)@.room_for(step_room(*item)),
        ensures
            final(store).wf(),
            final(store).taken() == old(store).taken(),
            final(interner).agrees(final(store)@),
            final(self)@.wf(final(store)@),
            (final(store)@, final(self)@, r) == (if is_left_out(old(self)@.root, *item, *options) {
                (old(store)@, old(self)@, Step::Continue)
            } else {
                scan_step(old(store)@, old(self)@, *item, *options, at_unix_ms)
            }),
            final(store)@.components.len() <= old(store)@.components.len() + step_room(*item),
            final(store)@.files.len() <= old(store)@.files.len() + step_room(*item),
            final(store)@.events.len() <= old(store)@.events.len() + step_room(*item),
    {
        let ghost s = self@;
        if leaves_out(self.root.as_str(), item, options) {
            return Step::Continue;
        }
        let full = match options.max_entries {
            Some(max) => self.summary.files_seen + self.summary.dirs_seen >= max,
            None => false,
        };
        if full {
            return Step::Stop;
        }
        match item {
            Walked::Unreadable => {
                self.summary.skipped = self.summary.skipped + 1;
                assert(self@ =~= ScanState { summary: with_skip(s.summary), ..s });
                Step::Continue
            },
            Walked::Entry { path, depth, is_dir, stat } => {
                if *depth == 0 {
                    return Step::Continue;
                }
                match stat {
                    None => {
                        self.summary.skipped = self.summary.skipped + 1;
                        assert(self@ =~= ScanState { summary: with_skip(s.summary), ..s });
                        Step::Continue
                    },
                    Some(stat) => {
                        let ghost t = store@;
                        let event = record_entry(
                            store,
                            interner,
                            self.root.as_str(),
                            self.root_id,
                            path.as_str(),
                            stat,
                            at_unix_ms,
                        );
                        if let Some(e) = event {
                            let appended = append(store, &e);
                            assert(appended is Ok);
                            self.waiting = self.waiting + 1;
                            self.summary.events_recorded = self.summary.events_recorded + 1;
                        }
                        if *is_dir {
                            self.summary.dirs_seen = self.summary.dirs_seen + 1;
                        } else {
                            self.summary.files_seen = self.summary.files_seen + 1;
                        }
                        assert(self.summary == with_seen(s.summary, *is_dir, event is Some));
                        if self.waiting < BATCH_SIZE {
                            return Step::Continue;
                        }
                        self.waiting = 0;
                        self.batches = self.batches + 1;
                        if self.batches >= BATCHES_PER_CHECKPOINT {
                            self.batches = 0;
                            Step::Checkpoint
                        } else {
                            Step::Flush
                        }
                    },
                }
            },
        }
    }

    /// End the walk, and give the summary.
    pub fn finish(self) -> (r: ScanSummary)
        ensures
            r == self@.summary,
    {
        self.summary
    }

    /// What the walk did so far.
    pub fn summary(&self) -> (r: ScanSummary)
        ensures
            r == self@.summary,
    {
        self.summary
    }

    /// Whether one more step can be counted.
    pub fn can_step(&self) -> (r: bool)
        ensures
            r == self@.can_count(),
    {
        self.summary.files_seen < u64::MAX - self.summary.dirs_seen
            && self.summary.events_recorded < u64::MAX && self.summary.skipped < u64::MAX
    }
}

/// How many rows of each table a walk may add at most.
pub open spec fn walk_room(items: Seq<Walked>) -> nat
    decreases items.len(),
{
    if items.len() == 0 {
        0
    } else {
        walk_room(items.drop_last()) + step_room(items.last())
    }
}

/// The tables and the walk after the first steps of a walk; once the limit is
/// reached nothing more is taken in.
pub open spec fn scan_steps(
    t: Tables,
    s: ScanState,
    items: Seq<Walked>,
    options: ScanOptions,
    at: i64,
) -> (Tables, ScanState)
    decreases items.len(),
{
    if items.len() == 0 {
        (t, s)
    } else {
        let (before, state) = scan_steps(t, s, items.drop_last(), options, at);
        let (after, next, step) = scan_step(before, state, items.last(), options, at);
        (after, next)
    }
}

/// A walk that has not seen anything.
pub open spec fn fresh_scan(root: Seq<char>, root_id: FileId) -> ScanState {
    ScanState {
        root,
        root_id,
        summary: ScanSummary { files_seen: 0, dirs_seen: 0, events_recorded: 0, skipped: 0 },
        waiting: 0,
        batches: 0,
    }
}

/// Record a whole walk of `root`, emitting an event for anything new or
/// changed, and leaving out what the options say.
///
/// Scanning an unchanged tree twice records events the first time and none the
/// second, because an entry whose size and time match what is stored is not a
/// change.
pub fn scan(
    store: &mut Store,
    interner: &mut Interner,
    root: &str,
    root_exists: bool,
    items: &[Walked],
    options: &ScanOptions,
    at_unix_ms: i64,
) -> (r: Result<ScanSummary, ScanError>)
    requires
        old(store).wf(),
        old(interner).agrees(old(store)@),
        old(store)@.room_for(components_of(root@).len() + walk_room(items@)),
        items@.len() < u64::MAX,
    ensures
        final(store).wf(),
        final(store).taken() == old(store).taken(),
        final(interner).agrees(final(store)@),
        match r {
            Ok(summary) => {
                &&& root_exists && components_of(root@).len() > 0
                &&& ({
                    let (start, root_id) = dir_chain(old(store)@, None, components_of(root@));
                    let (end, state) = scan_steps(
                        start,
                        fresh_scan(root@, root_id->0),
                        kept(root@, items@, *options),
                        *options,
                        at_unix_ms,
                    );
                    &&& root_id is Some
                    &&& final(store)@ == end
                    &&& summary == state.summary
                })
            },
            Err(e) => {
                &&& final(store)@ == old(store)@
                &&& *final(interner) == *old(interner)
                &&& is_refusal(e, root@, root_exists)
            },
        },
{
    let begun = Scan::begin(store, interner, root, root_exists);
    match begun {
        Err(e) => Err(e),
        Ok(mut walk) => {
            let ghost start = store@;
            let ghost first = walk@;
            proof {
                crate::paths::lemma_dir_chain(old(store)@, components_of(root@));
                assert(first =~= fresh_scan(root@, first.root_id));
            }
            let mut k: usize = 0;
            assert(items@.take(0) =~= Seq::<Walked>::empty());
            while k < items.len()
                invariant
                    0 <= k <= items@.len() < u64::MAX,
                    store.wf(),
                    store.taken() == old(store).taken(),
                    interner.agrees(store@),
                    walk@.wf(store@),
                    start.room_for(walk_room(items@)),
                    walk@.root == root@,
                    walk@.summary.files_seen + walk@.summary.dirs_seen <= k,
                    walk@.summary.events_recorded <= k,
                    walk@.summary.skipped <= k,
                    (store@, walk@) == scan_steps(
                        start,
                        first,
                        kept(root@, items@.take(k as int), *options),
                        *options,
                        at_unix_ms,
                    ),
                    store@.components.len() <= start.components.len() + walk_room(
                        items@.take(k as int),
                    ),
                    store@.files.len() <= start.files.len() + walk_room(
                        items@.take(k as int),
                    ),
                    store@.events.len() <= start.events.len() + walk_room(
                        items@.take(k as int),
                    ),
                decreases items@.len() - k,
            {
                proof {
                    assert(items@.take(k + 1).drop_last() =~= items@.take(k as int));
                    assert(items@.take(k + 1).last() == items@[k as int]);
                    let before = kept(root@, items@.take(k as int), *options);
                    assert(before.push(items@[k as int]).drop_last() =~= before);
                    lemma_walk_room_grows(items@, (k + 1) as int);
                }
                let step = walk.step(store, interner, &items[k], options, at_unix_ms);
                k = k + 1;
            }
            proof {
                assert(items@.take(k as int) =~= items@);
            }
            Ok(walk.finish())
        },
    }
}

/// Part of a walk needs no more room than all of it.
proof fn lemma_walk_room_grows(items: Seq<Walked>, n: int)
    requires
        0 <= n <= items.len(),
    ensures
        walk_room(items.take(n)) <= walk_room(items),
    decreases items.len(),
{
    if n == items.len() {
        assert(items.take(n) =~= items);
    } else {
        lemma_walk_room_grows(items.drop_last(), n);
        assert(items.drop_last().take(n) =~= items.take(n));
    }
}

// Laws.

/// What there is to say of an entry that was seen: of a directory nothing; of a file that
/// was not known that it was created; of one that was known, that it was modified exactly
/// where its size or its time is another.
pub proof fn a_change_is_told_by_size_and_time(before: Option<FileRow>, stat: Stat)
    ensures
        stat.is_dir ==> change_kind(before, stat) is None,
        !stat.is_dir && before is None ==> change_kind(before, stat) == Some(EventKind::Created),
        !stat.is_dir && before is Some ==> (change_kind(before, stat) is None
            <==> before->0.size_bytes == Some(stat.len as i64) && before->0.mtime_unix
            == stat.mtime_unix),
        !stat.is_dir && before is Some && change_kind(before, stat) is Some ==> change_kind(
            before,
            stat,
        ) == Some(EventKind::Modified),
{
}

/// Whether a walk came to an entry below its root whose metadata could be read.
pub open spec fn was_seen(item: Walked, dir: bool) -> bool {
    item matches Walked::Entry { path: _, depth, is_dir, stat } && depth > 0 && stat is Some
        && is_dir == dir
}

/// Whether a walk came to an entry below its root that could not be read.
pub open spec fn was_not_read(item: Walked) -> bool {
    match item {
        Walked::Unreadable => true,
        Walked::Entry { path: _, depth, is_dir: _, stat } => depth > 0 && stat is None,
    }
}

/// A summary counts the files and the directories that were seen, the entries that could
/// not be read, and the events that were recorded. The root itself is not counted.
pub proof fn a_summary_counts_what_was_seen(
    t: Tables,
    root: Seq<char>,
    root_id: FileId,
    items: Seq<Walked>,
    options: ScanOptions,
    at: i64,
)
    requires
        options.max_entries is None,
        items.len() < u64::MAX,
    ensures
        ({
            let (after, state) = scan_steps(t, fresh_scan(root, root_id), items, options, at);
            &&& state.summary.files_seen == how_many(
                items.len(),
                |k: int| was_seen(items[k], false),
            )
            &&& state.summary.dirs_seen == how_many(items.len(), |k: int| was_seen(items[k], true))
            &&& state.summary.skipped == how_many(items.len(), |k: int| was_not_read(items[k]))
            &&& after.events.len() == t.events.len() + state.summary.events_recorded
            &&& t.events.is_prefix_of(after.events)
        }),
{
    lemma_counted(t, root, root_id, items, options, at);
}

proof fn lemma_counted(
    t: Tables,
    root: Seq<char>,
    root_id: FileId,
    items: Seq<Walked>,
    options: ScanOptions,
    at: i64,
)
    requires
        options.max_entries is None,
        items.len() < u64::MAX,
    ensures
        ({
            let (after, state) = scan_steps(t, fresh_scan(root, root_id), items, options, at);
            &&& state.summary.files_seen == how_many(
                items.len(),
                |k: int| was_seen(items[k], false),
            )
            &&& state.summary.dirs_seen == how_many(items.len(), |k: int| was_seen(items[k], true))
            &&& state.summary.skipped == how_many(items.len(), |k: int| was_not_read(items[k]))
            &&& state.summary.files_seen <= items.len()
            &&& state.summary.dirs_seen <= items.len()
            &&& state.summary.skipped <= items.len()
            &&& state.summary.events_recorded <= items.len()
            &&& after.events.len() == t.events.len() + state.summary.events_recorded
            &&& t.events.is_prefix_of(after.events)
        }),
    decreases items.len(),
{
    let n = items.len();
    let file = |k: int| was_seen(items[k], false);
    let dir = |k: int| was_seen(items[k], true);
    let skip = |k: int| was_not_read(items[k]);
    lemma_how_many(n, file);
    lemma_how_many(n, dir);
    lemma_how_many(n, skip);
    if n > 0 {
        let less = items.drop_last();
        let m = (n - 1) as nat;
        lemma_counted(t, root, root_id, less, options, at);
        lemma_how_many_alike(m, |k: int| was_seen(less[k], false), file);
        lemma_how_many_alike(m, |k: int| was_seen(less[k], true), dir);
        lemma_how_many_alike(m, |k: int| was_not_read(less[k]), skip);
        let (before, state) = scan_steps(t, fresh_scan(root, root_id), less, options, at);
        lemma_state_stays(t, fresh_scan(root, root_id), less, options, at);
        if let Walked::Entry { path, depth, is_dir: _, stat } = items.last() {
            if depth > 0 && stat is Some {
                lemma_observing_keeps_events(
                    before,
                    state.root_id,
                    dirs_below(state.root, path@),
                    entry_name(path@),
                    stat->0,
                );
            }
        }
    }
}

/// A walk keeps its root.
proof fn lemma_state_stays(
    t: Tables,
    s: ScanState,
    items: Seq<Walked>,
    options: ScanOptions,
    at: i64,
)
    ensures
        scan_steps(t, s, items, options, at).1.root == s.root,
        scan_steps(t, s, items, options, at).1.root_id == s.root_id,
    decreases items.len(),
{
    if items.len() > 0 {
        lemma_state_stays(t, s, items.drop_last(), options, at);
    }
}

/// Observing an entry records no event by itself.
proof fn lemma_observing_keeps_events(
    t: Tables,
    root_id: FileId,
    dirs: Seq<Seq<char>>,
    name: Seq<char>,
    stat: Stat,
)
    ensures
        observe(t, root_id, dirs, name, stat).0.events == t.events,
{
    lemma_chain_keeps_events(t, Some(root_id), dirs);
}

proof fn lemma_chain_keeps_events(t: Tables, start: Option<FileId>, names: Seq<Seq<char>>)
    ensures
        dir_chain(t, start, names).0.events == t.events,
    decreases names.len(),
{
    if names.len() > 0 {
        lemma_chain_keeps_events(t, start, names.drop_last());
    }
}

/// A walk with a limit sees no more entries than that, and once it is reached nothing more
/// is taken in.
pub proof fn a_walk_ends_at_its_limit(
    t: Tables,
    s: ScanState,
    item: Walked,
    options: ScanOptions,
    at: i64,
    most: u64,
)
    requires
        options.max_entries == Some(most),
        s.summary.files_seen + s.summary.dirs_seen <= most,
    ensures
        ({
            let (after, next, step) = scan_step(t, s, item, options, at);
            &&& next.summary.files_seen + next.summary.dirs_seen <= most
            &&& step is Stop <==> s.summary.files_seen + s.summary.dirs_seen == most
            &&& step is Stop ==> after == t && next == s
        }),
{
}

/// What has come together is written out with every 1024th event, and with every sixteenth
/// batch the write-ahead log is folded back. In between the walk goes on.
pub proof fn events_are_written_out_in_batches(
    t: Tables,
    s: ScanState,
    item: Walked,
    options: ScanOptions,
    at: i64,
)
    requires
        s.wf(t),
        options.max_entries is None,
    ensures
        ({
            let (after, next, step) = scan_step(t, s, item, options, at);
            let fresh = after.events.len() - t.events.len();
            &&& fresh == 0 || fresh == 1
            &&& fresh == 0 || s.waiting < 1023 ==> step is Continue && next.waiting == s.waiting
                + fresh && next.batches == s.batches
            &&& fresh == 1 && s.waiting == 1023 && s.batches < 15 ==> step is Flush && next.waiting
                == 0 && next.batches == s.batches + 1
            &&& fresh == 1 && s.waiting == 1023 && s.batches == 15 ==> step is Checkpoint
                && next.waiting == 0 && next.batches == 0
        }),
{
    if let Walked::Entry { path, depth: _, is_dir: _, stat } = item {
        if let Some(seen) = stat {
            lemma_observing_keeps_events(
                t,
                s.root_id,
                dirs_below(s.root, path@),
                entry_name(path@),
                seen,
            );
        }
    }
}

} // verus!
