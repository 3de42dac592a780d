//! Single paths as they change: touched, removed or moved.
//!
//! A touched path goes through the same judgement as an entry of a walk, so an
//! event looks the same whether it came from a scan or from a live change. A
//! removed entry is tombstoned rather than deleted: what refers to it must keep
//! resolving, and the deletion is itself a fact to show.
use vstd::prelude::*;

use crate::events::{append, previous_path_of, references_exist, EventKind, NewEvent};
use crate::fspath::{
    components_of, dirs_below, dirs_between, file_name, file_name_of, is_under, joined,
    normalised_components, parts_of, path_is_under, texts,
};
use crate::metadata::enqueue;
use crate::paths::{
    at_place, chosen, dir_chain, ensure_dir_chain, find_entry, intern, is_chosen,
    lemma_chosen_unique, lemma_live_is_chosen, names_upwards, path_of, preferred, upsert, Interner,
    MAX_DEPTH,
};
use crate::queue::enqueued;
use crate::rescan::{leads_to, lemma_led_by_one};
use crate::scan::{
    entry_event, is_excluded, observe, observe_entry, recorded_size, size_of_stat, ScanError, Stat,
};
use crate::store::{ComponentId, FileId, FileRow, Store, StoreError, Tables};
use crate::watch::{Change, ChangeView};

verus! {

/// What looking at a changed path gave.
#[derive(Debug, Clone, Copy, PartialEq, Eq)]
pub enum Look {
    Found(Stat),
    /// Already gone again, which is normal for an editor's temporary file.
    Gone,
    /// It is there, but its metadata could not be read.
    Unreadable,
}

/// The length of a root's text, in bytes.
pub open spec fn root_len(root: Seq<char>) -> usize {
    vstd::utf8::encode_utf8(root).len() as usize
}

/// Whether root `i` owns the path: it lies under it, and no other root that it
/// lies under is longer, nor one as long further down the list.
pub open spec fn is_owner(roots: Seq<String>, path: Seq<char>, i: int) -> bool {
    &&& 0 <= i < roots.len()
    &&& is_under(roots[i]@, path)
    &&& forall|j: int|
        0 <= j < roots.len() && is_under((#[trigger] roots[j])@, path) ==> root_len(roots[j]@)
            < root_len(roots[i]@) || (root_len(roots[j]@) == root_len(roots[i]@) && j <= i)
}

/// The watch root that contains a path, if any: the longest match wins, so
/// that a nested root records against the most specific one.
pub fn owning_root(roots: &[String], path: &str) -> (r: Option<usize>)
    ensures
        match r {
            Some(i) => is_owner(roots@, path@, i as int),
            None => forall|j: int|
                0 <= j < roots@.len() ==> !is_under((#[trigger] roots@[j])@, path@),
        },
{
    let mut best: Option<usize> = None;
    let mut k: usize = 0;
    while k < roots.len()
        invariant
            0 <= k <= roots@.len(),
            match best {
                Some(i) => {
                    &&& i < k
                    &&& is_under(roots@[i as int]@, path@)
                    &&& forall|j: int|
                        0 <= j < k && is_under((#[trigger] roots@[j])@, path@) ==> root_len(
                            roots@[j]@,
                        ) < root_len(roots@[i as int]@) || (root_len(roots@[j]@) == root_len(
                            roots@[i as int]@,
                        ) && j <= i)
                },
                None => forall|j: int|
                    0 <= j < k ==> !is_under((#[trigger] roots@[j])@, path@),
            },
        decreases roots@.len() - k,
    {
        if path_is_under(roots[k].as_str(), path) {
            let longer = match best {
                Some(i) => roots[k].as_str().len() >= roots[i].as_str().len(),
                None => true,
            };
            if longer {
                best = Some(k);
            }
        }
        k = k + 1;
    }
    best
}

/// What came of a change.
#[verifier::ext_equal]
pub struct Recorded {
    pub tables: Tables,
    /// The file that changed, where there was a change to record.
    pub file: Option<FileId>,
}

/// The tables with a path under `root` observed at a given time.
pub open spec fn touched(
    t: Tables,
    root: Seq<char>,
    path: Seq<char>,
    stat: Stat,
    at: i64,
) -> Recorded {
    let (rooted, root_id) = dir_chain(t, None, components_of(root));
    let dirs = dirs_below(root, path);
    match file_name_of(path) {
        None => Recorded { tables: dir_chain(rooted, root_id, dirs).0, file: None },
        Some(name) => {
            let (after, id, kind) = observe(rooted, root_id->0, dirs, name, stat);
            match kind {
                None => Recorded { tables: after, file: None },
                Some(k) => Recorded {
                    tables: after.add_event(entry_event(id, k, at, recorded_size(stat))),
                    file: Some(id),
                },
            }
        },
    }
}

/// The row that a chain of names leads to from the top of the tree, without
/// creating anything; no names lead to the top itself.
pub open spec fn follow(t: Tables, names: Seq<Seq<char>>) -> Option<Option<FileId>>
    decreases names.len(),
{
    if names.len() == 0 {
        Some(None)
    } else {
        match follow(t, names.drop_last()) {
            None => None,
            Some(parent) => match entry_at(t, parent, names.last()) {
                Some(id) => Some(Some(id)),
                None => None,
            },
        }
    }
}

/// The entry of a name below a row, or at the top of the tree.
pub open spec fn entry_at(t: Tables, parent: Option<FileId>, name: Seq<char>) -> Option<FileId> {
    if !t.components.contains(name) {
        None
    } else {
        match chosen(t.files, parent, (t.components.index_of(name) + 1) as i64) {
            Some(i) => Some((i + 1) as i64),
            None => None,
        }
    }
}

/// The live entry of a name in the directory that a chain of names leads to.
pub open spec fn live_entry(t: Tables, dirs: Seq<Seq<char>>, name: Seq<char>) -> Option<FileId> {
    match follow(t, dirs) {
        None => None,
        Some(parent) => match entry_at(t, parent, name) {
            Some(id) => if t.file(id).deleted_at is None {
                Some(id)
            } else {
                None
            },
            None => None,
        },
    }
}

/// The names of the directories from the top of the tree to the one that holds
/// a path under `root`.
pub open spec fn dirs_to(root: Seq<char>, path: Seq<char>) -> Seq<Seq<char>> {
    components_of(root) + dirs_below(root, path)
}

/// The tables with a file tombstoned and its deletion recorded.
pub open spec fn tombstoned(t: Tables, id: FileId, at: i64) -> Tables {
    t.set_file(id, FileRow { deleted_at: Some(at), ..t.file(id) }).add_event(
        entry_event(id, EventKind::Deleted, at, None),
    )
}

/// The tables with a path under `root` gone at a given time. The path is looked
/// up and nothing is created: where it was never recorded, nothing changes.
pub open spec fn removed(t: Tables, root: Seq<char>, path: Seq<char>, at: i64) -> Recorded {
    match file_name_of(path) {
        None => Recorded { tables: t, file: None },
        Some(name) => match live_entry(t, dirs_to(root, path), name) {
            None => Recorded { tables: t, file: None },
            Some(id) => Recorded { tables: tombstoned(t, id, at), file: Some(id) },
        },
    }
}

/// Whether a root names nothing, so that nothing can be recorded below it.
pub open spec fn root_refused(root: Seq<char>) -> bool {
    components_of(root).len() == 0
}

/// How many rows of each table one change may add at most.
pub open spec fn change_room(roots: Seq<String>, path: Seq<char>) -> nat {
    parts_of(path).len() + 3 + most_components(roots)
}

/// The largest number of components that any of the roots has.
pub open spec fn most_components(roots: Seq<String>) -> nat
    decreases roots.len(),
{
    if roots.len() == 0 {
        0
    } else {
        let before = most_components(roots.drop_last());
        let last = components_of(roots.last()@).len();
        if last > before {
            last
        } else {
            before
        }
    }
}

/// No root has more components than the most that any has.
pub(crate) proof fn lemma_most_components(roots: Seq<String>, i: int)
    requires
        0 <= i < roots.len(),
    ensures
        components_of(roots[i]@).len() <= most_components(roots),
    decreases roots.len(),
{
    if i < roots.len() - 1 {
        lemma_most_components(roots.drop_last(), i);
    }
}

/// The root that owns a path, if any.
pub open spec fn owner_of(roots: Seq<String>, path: Seq<char>) -> Option<Seq<char>> {
    if exists|i: int| is_owner(roots, path, i) {
        Some(roots[choose|i: int| is_owner(roots, path, i)]@)
    } else {
        None
    }
}

/// Whether an error says that a root names nothing.
pub open spec fn is_store_refusal(e: ScanError) -> bool {
    e matches ScanError::Store(s) && s is EmptyPath
}

/// What recording that a path is gone comes to; an error where its name is
/// known and the root that owns it names nothing.
pub open spec fn removal_recorded(
    t: Tables,
    roots: Seq<String>,
    path: Seq<char>,
    at: i64,
) -> Option<Recorded> {
    match owner_of(roots, path) {
        None => Some(Recorded { tables: t, file: None }),
        Some(root) => if file_name_of(path) is Some && t.components.contains(
            file_name_of(path)->0,
        ) && root_refused(root) {
            None
        } else {
            Some(removed(t, root, path, at))
        },
    }
}

/// What recording that a path was touched comes to.
pub open spec fn path_recorded(
    t: Tables,
    roots: Seq<String>,
    path: Seq<char>,
    look: Look,
    at: i64,
) -> Option<Recorded> {
    match owner_of(roots, path) {
        None => Some(Recorded { tables: t, file: None }),
        Some(root) => match look {
            Look::Unreadable => Some(Recorded { tables: t, file: None }),
            Look::Gone => match removal_recorded(t, roots, path, at) {
                Some(gone) => Some(Recorded { tables: gone.tables, file: None }),
                None => None,
            },
            Look::Found(stat) => if root_refused(root) {
                None
            } else {
                Some(touched(t, root, path, stat, at))
            },
        },
    }
}

/// Record a path that was touched, giving its file where that was created or
/// modified.
///
/// A path outside every root is ignored, one that is already gone is recorded
/// as removed, and one that cannot be read is left alone.
pub fn record_path(
    store: &mut Store,
    interner: &mut Interner,
    roots: &[String],
    path: &str,
    look: Look,
    at_unix_ms: i64,
) -> (r: Result<Option<FileId>, ScanError>)
    requires
        old(store).wf(),
        old(interner).agrees(old(store)@),
        old(store)@.room_for(change_room(roots@, path@)),
    ensures
        final(store).wf(),
        final(store).taken() == old(store).taken(),
        final(interner).agrees(final(store)@),
        match path_recorded(old(store)@, roots@, path@, look, at_unix_ms) {
            Some(recorded) => r == Ok::<Option<FileId>, ScanError>(recorded.file) && final(store)@
                == recorded.tables,
            None => (r matches Err(e) && is_store_refusal(e)) && final(store)@ == old(store)@,
        },
        r matches Ok(Some(id)) ==> final(store)@.has_file(id),
{
    match owning_root(roots, path) {
        None => {
            proof {
                lemma_no_owner(roots@, path@);
            }
            Ok(None)
        },
        Some(i) => {
            proof {
                lemma_owner_unique(roots@, path@, i as int);
                lemma_most_components(roots@, i as int);
            }
            let root = roots[i].as_str();
            match look {
                Look::Unreadable => Ok(None),
                Look::Gone => match remove_under(store, root, path, at_unix_ms) {
                    Ok(_) => Ok(None),
                    Err(e) => Err(e),
                },
                Look::Found(stat) => touch_under(store, interner, root, path, &stat, at_unix_ms),
            }
        },
    }
}

/// At most one root owns a path.
proof fn lemma_owner_unique(roots: Seq<String>, path: Seq<char>, i: int)
    requires
        is_owner(roots, path, i),
    ensures
        forall|j: int| #[trigger] is_owner(roots, path, j) ==> j == i,
        owner_of(roots, path) == Some(roots[i]@),
{
    assert(is_under(roots[i]@, path));
    assert forall|j: int| #[trigger] is_owner(roots, path, j) implies j == i by {
        assert(is_under(roots[j]@, path));
    }
}

proof fn lemma_no_owner(roots: Seq<String>, path: Seq<char>)
    requires
        forall|j: int| 0 <= j < roots.len() ==> !is_under((#[trigger] roots[j])@, path),
    ensures
        owner_of(roots, path) is None,
{
}

fn touch_under(
    store: &mut Store,
    interner: &mut Interner,
    root: &str,
    path: &str,
    stat: &Stat,
    at_unix_ms: i64,
) -> (r: Result<Option<FileId>, ScanError>)
    requires
        old(store).wf(),
        old(interner).agrees(old(store)@),
        old(store)@.room_for(components_of(root@).len() + parts_of(path@).len() + 2),
    ensures
        final(store).wf(),
        final(store).taken() == old(store).taken(),
        final(interner).agrees(final(store)@),
        match r {
            Ok(file) => !root_refused(root@) && (Recorded { tables: final(store)@, file })
                == touched(old(store)@, root@, path@, *stat, at_unix_ms),
            Err(e) => root_refused(root@) && is_store_refusal(e) && final(store)@ == old(store)@,
        },
        r matches Ok(Some(id)) ==> final(store)@.has_file(id),
{
    proof {
        crate::paths::lemma_dir_chain(old(store)@, components_of(root@));
    }
    let root_id = match ensure_dir_chain(store, interner, root) {
        Ok(id) => id,
        Err(e) => {
            return Err(ScanError::Store(e));
        },
    };
    let dirs = dirs_between(root, path);
    match file_name(path) {
        None => {
            let made = crate::paths::ensure_dirs(store, interner, Some(root_id), &dirs);
            Ok(None)
        },
        Some(name) => {
            let (id, kind) = observe_entry(store, interner, root_id, &dirs, name.as_str(), stat);
            match kind {
                None => Ok(None),
                Some(k) => {
                    let event = NewEvent {
                        file_id: id,
                        kind: k,
                        at_unix_ms,
                        size_bytes: size_of_stat(stat),
                        prev_parent_id: None,
                        prev_component_id: None,
                    };
                    assert(references_exist(store@, event));
                    let appended = append(store, &event);
                    Ok(Some(id))
                },
            }
        },
    }
}

/// The entry of a name below a row, or at the top of the tree.
fn find_at(store: &Store, parent: Option<FileId>, name: &str) -> (r: Option<FileId>)
    requires
        store.wf(),
    ensures
        r == entry_at(store@, parent, name@),
        r matches Some(id) ==> store@.has_file(id),
{
    match store.find_component(name) {
        None => None,
        Some(component) => {
            proof {
                crate::paths::lemma_index_of(store@.components, name@, component - 1);
            }
            find_entry(store, parent, component)
        },
    }
}

/// Follow a chain of names from the top of the tree.
fn follow_names(store: &Store, names: &Vec<String>) -> (r: Option<Option<FileId>>)
    requires
        store.wf(),
    ensures
        r == follow(store@, texts(names@)),
{
    let ghost all = texts(names@);
    let mut current: Option<FileId> = None;
    let mut k: usize = 0;
    assert(all.take(0) =~= Seq::<Seq<char>>::empty());
    while k < names.len()
        invariant
            0 <= k <= names.len(),
            all == texts(names@),
            store.wf(),
            follow(store@, all.take(k as int)) == Some(current),
        decreases names.len() - k,
    {
        proof {
            assert(all.take(k + 1).drop_last() =~= all.take(k as int));
            assert(all.take(k + 1).last() == names@[k as int]@);
        }
        match find_at(store, current, names[k].as_str()) {
            None => {
                proof {
                    lemma_follow_stops(store@, all, (k + 1) as int);
                }
                return None;
            },
            Some(id) => {
                current = Some(id);
            },
        }
        k = k + 1;
    }
    assert(all.take(k as int) =~= all);
    Some(current)
}

/// Where the first names lead nowhere, all of them do.
proof fn lemma_follow_stops(t: Tables, names: Seq<Seq<char>>, n: int)
    requires
        0 <= n <= names.len(),
        follow(t, names.take(n)) is None,
    ensures
        follow(t, names) is None,
    decreases names.len(),
{
    if n == names.len() {
        assert(names.take(n) =~= names);
    } else {
        assert(names.drop_last().take(n) =~= names.take(n));
        lemma_follow_stops(t, names.drop_last(), n);
    }
}

/// The live entry that a path under `root` names.
fn find_live(store: &Store, root: &str, path: &str, name: &str) -> (r: Option<FileId>)
    requires
        store.wf(),
    ensures
        r == live_entry(store@, dirs_to(root@, path@), name@),
        r matches Some(id) ==> store@.has_file(id) && store@.file(id).deleted_at is None,
{
    let mut dirs = normalised_components(root);
    let mut below = dirs_between(root, path);
    let ghost upper = dirs@;
    let ghost lower = below@;
    dirs.append(&mut below);
    assert(texts(dirs@) =~= texts(upper) + texts(lower));
    match follow_names(store, &dirs) {
        None => None,
        Some(parent) => match find_at(store, parent, name) {
            None => None,
            Some(id) => {
                if store.file(id).deleted_at.is_none() {
                    Some(id)
                } else {
                    None
                }
            },
        },
    }
}

/// Tombstone a live file and record its deletion.
fn tombstone(store: &mut Store, id: FileId, at_unix_ms: i64)
    requires
        old(store).wf(),
        old(store)@.has_file(id),
        old(store)@.events.len() < i64::MAX,
    ensures
        final(store).wf(),
        final(store).taken() == old(store).taken(),
        final(store)@ == tombstoned(old(store)@, id, at_unix_ms),
{
    let row = store.file(id);
    let gone = FileRow {
        parent_id: row.parent_id,
        component_id: row.component_id,
        is_dir: row.is_dir,
        size_bytes: row.size_bytes,
        mtime_unix: row.mtime_unix,
        deleted_at: Some(at_unix_ms),
    };
    store.set_file(id, gone);
    let event = NewEvent {
        file_id: id,
        kind: EventKind::Deleted,
        at_unix_ms,
        size_bytes: None,
        prev_parent_id: None,
        prev_component_id: None,
    };
    let added = store.add_event(event);
}

fn remove_under(store: &mut Store, root: &str, path: &str, at_unix_ms: i64) -> (r: Result<
    Option<FileId>,
    ScanError,
>)
    requires
        old(store).wf(),
        old(store)@.room_for(1),
    ensures
        final(store).wf(),
        final(store).taken() == old(store).taken(),
        ({
            let known = file_name_of(path@) is Some && old(store)@.components.contains(
                file_name_of(path@)->0,
            );
            match r {
                Ok(file) => (known ==> !root_refused(root@)) && (Recorded {
                    tables: final(store)@,
                    file,
                }) == removed(old(store)@, root@, path@, at_unix_ms),
                Err(e) => known && root_refused(root@) && is_store_refusal(e) && final(store)@
                    == old(store)@,
            }
        }),
{
    match file_name(path) {
        None => Ok(None),
        Some(name) => {
            let known = store.find_component(name.as_str());
            if known.is_none() {
                return Ok(None);
            }
            assert(old(store)@.components[known->0 - 1] == name@);
            if normalised_components(root).len() == 0 {
                return Err(ScanError::Store(StoreError::EmptyPath));
            }
            match find_live(store, root, path, name.as_str()) {
                None => Ok(None),
                Some(id) => {
                    tombstone(store, id, at_unix_ms);
                    Ok(Some(id))
                },
            }
        },
    }
}

/// Record that a path is gone.
pub fn record_removal(
    store: &mut Store,
    interner: &mut Interner,
    roots: &[String],
    path: &str,
    at_unix_ms: i64,
) -> (r: Result<(), ScanError>)
    requires
        old(store).wf(),
        old(interner).agrees(old(store)@),
        old(store)@.room_for(1),
    ensures
        final(store).wf(),
        final(store).taken() == old(store).taken(),
        final(interner).agrees(final(store)@),
        *final(interner) == *old(interner),
        match removal_recorded(old(store)@, roots@, path@, at_unix_ms) {
            Some(recorded) => r is Ok && final(store)@ == recorded.tables,
            None => (r matches Err(e) && is_store_refusal(e)) && final(store)@ == old(store)@,
        },
{
    match owning_root(roots, path) {
        None => {
            proof {
                lemma_no_owner(roots@, path@);
            }
            Ok(())
        },
        Some(i) => {
            proof {
                lemma_owner_unique(roots@, path@, i as int);
                lemma_most_components(roots@, i as int);
            }
            match remove_under(store, roots[i].as_str(), path, at_unix_ms) {
                Ok(_) => Ok(()),
                Err(e) => Err(e),
            }
        },
    }
}

/// The tables with file `id` moved to another place in the tree at a given
/// time. What was live at that place is replaced and tombstoned; the move of a
/// file, unlike that of a directory, is an event that says where it was.
pub open spec fn moved(
    t: Tables,
    id: FileId,
    parent: FileId,
    component: ComponentId,
    stat: Stat,
    at: i64,
) -> Tables {
    let replaced = match chosen(t.files, Some(parent), component) {
        Some(i) => if t.files[i].deleted_at is None && i != id - 1 {
            tombstoned(t, (i + 1) as i64, at)
        } else {
            t
        },
        None => t,
    };
    let row = t.file(id);
    let placed = replaced.set_file(
        id,
        FileRow {
            parent_id: Some(parent),
            component_id: component,
            is_dir: row.is_dir,
            size_bytes: recorded_size(stat),
            mtime_unix: stat.mtime_unix,
            deleted_at: None,
        },
    );
    if row.is_dir {
        placed
    } else {
        placed.add_event(
            NewEvent {
                file_id: id,
                kind: EventKind::Renamed,
                at_unix_ms: at,
                size_bytes: recorded_size(stat),
                prev_parent_id: row.parent_id,
                prev_component_id: Some(row.component_id),
            },
        )
    }
}

fn move_to(
    store: &mut Store,
    id: FileId,
    parent: FileId,
    component: ComponentId,
    stat: &Stat,
    at_unix_ms: i64,
)
    requires
        old(store).wf(),
        old(store)@.has_file(id),
        old(store)@.has_file(parent),
        old(store)@.has_component(component),
        old(store)@.events.len() + 2 <= i64::MAX,
    ensures
        final(store).wf(),
        final(store).taken() == old(store).taken(),
        final(store)@ == moved(old(store)@, id, parent, component, *stat, at_unix_ms),
{
    let ghost t = store@;
    let row = store.file(id);
    let occupant = find_entry(store, Some(parent), component);
    if let Some(other) = occupant {
        if other != id && store.file(other).deleted_at.is_none() {
            tombstone(store, other, at_unix_ms);
        }
    }
    let ghost replaced = store@;
    let size = size_of_stat(stat);
    let placed = FileRow {
        parent_id: Some(parent),
        component_id: component,
        is_dir: row.is_dir,
        size_bytes: size,
        mtime_unix: stat.mtime_unix,
        deleted_at: None,
    };
    proof {
        assert forall|i: int|
            0 <= i < replaced.files.len() && i != id - 1 && (#[trigger] replaced.files[i]).deleted_at
                is None implies !(replaced.files[i].parent_id == placed.parent_id
            && replaced.files[i].component_id == placed.component_id) by {
            if at_place(replaced.files[i], Some(parent), component) {
                assert(replaced.files[i] == t.files[i]);
                assert(at_place(t.files[i], Some(parent), component));
                assert(occupant is Some);
                let o = occupant->0 - 1;
                assert(is_chosen(t.files, Some(parent), component, o));
                if i != o {
                    assert(preferred(t.files, o, i));
                    // the occupant is live, and so is i: there is only one
                    assert(t.files[o].deleted_at is None);
                    if o < i {
                        assert(!(t.files[o].parent_id == t.files[i].parent_id
                            && t.files[o].component_id == t.files[i].component_id));
                    } else {
                        assert(!(t.files[i].parent_id == t.files[o].parent_id
                            && t.files[i].component_id == t.files[o].component_id));
                    }
                }
            }
        }
    }
    store.move_file(id, placed);
    if !row.is_dir {
        let event = NewEvent {
            file_id: id,
            kind: EventKind::Renamed,
            at_unix_ms,
            size_bytes: size,
            prev_parent_id: row.parent_id,
            prev_component_id: Some(row.component_id),
        };
        let added = store.add_event(event);
    }
}

/// The tables with a path moved within the roots at a given time. Where
/// nothing live is known at the place it left, it is an arrival.
pub open spec fn renamed(
    t: Tables,
    from_root: Seq<char>,
    from: Seq<char>,
    to_root: Seq<char>,
    to: Seq<char>,
    stat: Stat,
    at: i64,
) -> Recorded {
    let source = match file_name_of(from) {
        Some(name) => live_entry(t, dirs_to(from_root, from), name),
        None => None,
    };
    match (source, file_name_of(to)) {
        (Some(id), Some(name)) => {
            let (placed, to_id) = dir_chain(t, None, components_of(to_root));
            let (above, parent) = dir_chain(placed, to_id, dirs_below(to_root, to));
            let (named, component) = intern(above, name);
            Recorded {
                tables: moved(named, id, parent->0, component, stat, at),
                file: if named.file(id).is_dir {
                    None
                } else {
                    Some(id)
                },
            }
        },
        _ => touched(t, to_root, to, stat, at),
    }
}

/// Record that a path moved, both ends of which lie under a root, giving its
/// file. The file keeps its row, and with it its history.
pub fn record_rename(
    store: &mut Store,
    interner: &mut Interner,
    from_root: &str,
    from: &str,
    to_root: &str,
    to: &str,
    stat: &Stat,
    at_unix_ms: i64,
) -> (r: Result<Option<FileId>, ScanError>)
    requires
        old(store).wf(),
        old(interner).agrees(old(store)@),
        old(store)@.room_for(components_of(to_root@).len() + parts_of(to@).len() + 3),
    ensures
        final(store).wf(),
        final(store).taken() == old(store).taken(),
        final(interner).agrees(final(store)@),
        match r {
            Ok(file) => !root_refused(from_root@) && !root_refused(to_root@) && (Recorded {
                tables: final(store)@,
                file,
            }) == renamed(old(store)@, from_root@, from@, to_root@, to@, *stat, at_unix_ms),
            Err(e) => (root_refused(from_root@) || root_refused(to_root@)) && is_store_refusal(e)
                && final(store)@ == old(store)@,
        },
        r matches Ok(Some(id)) ==> final(store)@.has_file(id),
{
    if normalised_components(from_root).len() == 0 || normalised_components(to_root).len() == 0 {
        return Err(ScanError::Store(StoreError::EmptyPath));
    }
    // The place it left is looked up: nothing is made for a path that is gone.
    let source = match file_name(from) {
        Some(name) => find_live(store, from_root, from, name.as_str()),
        None => None,
    };
    match (source, file_name(to)) {
        (Some(id), Some(name)) => {
            proof {
                crate::paths::lemma_dir_chain(old(store)@, components_of(to_root@));
            }
            let to_id = match ensure_dir_chain(store, interner, to_root) {
                Ok(id) => id,
                Err(e) => {
                    return Err(ScanError::Store(e));
                },
            };
            let dirs = dirs_between(to_root, to);
            let parent = crate::paths::ensure_dirs(store, interner, Some(to_id), &dirs);
            let component = interner.intern_leaf(store, name.as_str());
            let is_dir = store.file(id).is_dir;
            match parent {
                Some(p) => {
                    move_to(store, id, p, component, stat, at_unix_ms);
                },
                None => {
                    assert(false);
                },
            }
            if is_dir {
                Ok(None)
            } else {
                Ok(Some(id))
            }
        },
        _ => touch_under(store, interner, to_root, to, stat, at_unix_ms),
    }
}

// Changes as the watch gives them out.

/// What is to be done about a change.
#[derive(Debug)]
pub enum Plan {
    /// Nothing: it is about what is not indexed.
    Ignore,
    /// Scan every root again.
    Rescan,
    /// Record that this path was touched.
    Record(String),
    /// Record that this path is gone.
    Remove(String),
    /// Record that a path moved.
    Move { from: String, to: String },
}

/// Whether a path is one that is not indexed.
pub open spec fn excluded(path: Seq<char>, skip_dirs: Seq<String>) -> bool {
    exists|i: int|
        0 <= i < parts_of(path).len() && crate::fspath::is_normal(parts_of(path)[i])
            && #[trigger] crate::scan::is_listed(skip_dirs, parts_of(path)[i])
}

/// Whether a plan is the right one for a change. A move into or out of what is
/// not indexed is a departure or an arrival: recording it as a move would show
/// a path that was asked not to be indexed.
pub open spec fn is_plan(change: ChangeView, skip_dirs: Seq<String>, plan: Plan) -> bool {
    match change {
        ChangeView::Overflowed => plan is Rescan,
        ChangeView::Touched(path) => if excluded(path, skip_dirs) {
            plan is Ignore
        } else {
            plan matches Plan::Record(p) && p@ == path
        },
        ChangeView::Removed(path) => if excluded(path, skip_dirs) {
            plan is Ignore
        } else {
            plan matches Plan::Remove(p) && p@ == path
        },
        ChangeView::Renamed { from, to } => match (
            excluded(from, skip_dirs),
            excluded(to, skip_dirs),
        ) {
            (true, true) => plan is Ignore,
            (true, false) => plan matches Plan::Record(p) && p@ == to,
            (false, true) => plan matches Plan::Remove(p) && p@ == from,
            (false, false) => plan matches Plan::Move { from: f, to: t } && f@ == from && t@ == to,
        },
    }
}

/// Decide what is to be done about a change.
pub fn plan_change(change: &Change, skip_dirs: &[String]) -> (r: Plan)
    ensures
        is_plan(change@, skip_dirs@, r),
{
    match change {
        Change::Overflowed => Plan::Rescan,
        Change::Touched(path) => {
            if is_excluded(path.as_str(), skip_dirs) {
                Plan::Ignore
            } else {
                Plan::Record(path.clone())
            }
        },
        Change::Removed(path) => {
            if is_excluded(path.as_str(), skip_dirs) {
                Plan::Ignore
            } else {
                Plan::Remove(path.clone())
            }
        },
        Change::Renamed { from, to } => {
            let from_excluded = is_excluded(from.as_str(), skip_dirs);
            let to_excluded = is_excluded(to.as_str(), skip_dirs);
            match (from_excluded, to_excluded) {
                (true, true) => Plan::Ignore,
                (true, false) => Plan::Record(to.clone()),
                (false, true) => Plan::Remove(from.clone()),
                (false, false) => Plan::Move { from: from.clone(), to: to.clone() },
            }
        },
    }
}

/// The tables with a recorded file queued for extraction.
pub open spec fn queued(recorded: Recorded, at: i64) -> Tables {
    match recorded.file {
        None => recorded.tables,
        Some(id) => recorded.tables.set_extraction_queue(
            id,
            Some(enqueued(recorded.tables.extraction_queue[id - 1], at)),
        ),
    }
}

/// What carrying out a move comes to. Where only one end lies under a root it
/// is an arrival or a departure, and what is already gone again is a departure.
pub open spec fn move_recorded(
    t: Tables,
    roots: Seq<String>,
    from: Seq<char>,
    to: Seq<char>,
    look: Look,
    at: i64,
) -> Option<Recorded> {
    match (owner_of(roots, from), owner_of(roots, to), look) {
        (Some(from_root), Some(to_root), Look::Found(stat)) => if root_refused(from_root)
            || root_refused(to_root) {
            None
        } else {
            Some(renamed(t, from_root, from, to_root, to, stat, at))
        },
        (None, Some(to_root), Look::Found(stat)) => path_recorded(t, roots, to, look, at),
        (_, Some(to_root), Look::Unreadable) => Some(Recorded { tables: t, file: None }),
        _ => match removal_recorded(t, roots, from, at) {
            Some(gone) => Some(Recorded { tables: gone.tables, file: None }),
            None => None,
        },
    }
}

/// What carrying out a plan comes to, but for a rescan.
pub open spec fn plan_recorded(
    t: Tables,
    roots: Seq<String>,
    plan: Plan,
    look: Look,
    at: i64,
) -> Option<Recorded> {
    match plan {
        Plan::Ignore => Some(Recorded { tables: t, file: None }),
        Plan::Rescan => Some(Recorded { tables: t, file: None }),
        Plan::Record(path) => path_recorded(t, roots, path@, look, at),
        Plan::Remove(path) => match removal_recorded(t, roots, path@, at) {
            Some(gone) => Some(Recorded { tables: gone.tables, file: None }),
            None => None,
        },
        Plan::Move { from, to } => move_recorded(t, roots, from@, to@, look, at),
    }
}

/// How many rows of each table carrying out a plan may add at most.
pub open spec fn plan_room(roots: Seq<String>, plan: Plan) -> nat {
    match plan {
        Plan::Ignore => 0,
        Plan::Rescan => 0,
        Plan::Record(path) => change_room(roots, path@),
        Plan::Remove(path) => change_room(roots, path@),
        Plan::Move { from, to } => change_room(roots, from@) + change_room(roots, to@),
    }
}

fn move_path(
    store: &mut Store,
    interner: &mut Interner,
    roots: &[String],
    from: &str,
    to: &str,
    look: Look,
    at_unix_ms: i64,
) -> (r: Result<Option<FileId>, ScanError>)
    requires
        old(store).wf(),
        old(interner).agrees(old(store)@),
        old(store)@.room_for(change_room(roots@, from@) + change_room(roots@, to@)),
    ensures
        final(store).wf(),
        final(store).taken() == old(store).taken(),
        final(interner).agrees(final(store)@),
        match move_recorded(old(store)@, roots@, from@, to@, look, at_unix_ms) {
            Some(recorded) => r == Ok::<Option<FileId>, ScanError>(recorded.file) && final(store)@
                == recorded.tables,
            None => (r matches Err(e) && is_store_refusal(e)) && final(store)@ == old(store)@,
        },
        r matches Ok(Some(id)) ==> final(store)@.has_file(id),
{
    let source = owning_root(roots, from);
    let target = owning_root(roots, to);
    proof {
        match source {
            Some(i) => {
                lemma_owner_unique(roots@, from@, i as int);
                lemma_most_components(roots@, i as int);
            },
            None => {
                lemma_no_owner(roots@, from@);
            },
        }
        match target {
            Some(i) => {
                lemma_owner_unique(roots@, to@, i as int);
                lemma_most_components(roots@, i as int);
            },
            None => {
                lemma_no_owner(roots@, to@);
            },
        }
    }
    match (source, target, look) {
        (Some(i), Some(j), Look::Found(stat)) => record_rename(
            store,
            interner,
            roots[i].as_str(),
            from,
            roots[j].as_str(),
            to,
            &stat,
            at_unix_ms,
        ),
        (None, Some(_), Look::Found(_)) => record_path(
            store,
            interner,
            roots,
            to,
            look,
            at_unix_ms,
        ),
        (_, Some(_), Look::Unreadable) => Ok(None),
        _ => match record_removal(store, interner, roots, from, at_unix_ms) {
            Ok(_) => Ok(None),
            Err(e) => Err(e),
        },
    }
}

/// Carry out a plan, given what looking at the touched path, or at the end of
/// the move, gave. A file that was created, modified or moved is queued for
/// extraction.
pub fn carry_out(
    store: &mut Store,
    interner: &mut Interner,
    roots: &[String],
    plan: &Plan,
    look: Look,
    at_unix_ms: i64,
    at_unix: i64,
) -> (r: Result<(), ScanError>)
    requires
        old(store).wf(),
        old(interner).agrees(old(store)@),
        old(store)@.room_for(plan_room(roots@, *plan)),
    ensures
        final(store).wf(),
        final(store).taken() == old(store).taken(),
        final(interner).agrees(final(store)@),
        match plan_recorded(old(store)@, roots@, *plan, look, at_unix_ms) {
            Some(recorded) => r is Ok && final(store)@ == queued(recorded, at_unix),
            None => (r matches Err(e) && is_store_refusal(e)) && final(store)@ == old(store)@,
        },
{
    let recorded = match plan {
        Plan::Ignore => Ok(None),
        Plan::Rescan => Ok(None),
        Plan::Record(path) => record_path(
            store,
            interner,
            roots,
            path.as_str(),
            look,
            at_unix_ms,
        ),
        Plan::Remove(path) => match record_removal(
            store,
            interner,
            roots,
            path.as_str(),
            at_unix_ms,
        ) {
            Ok(_) => Ok(None),
            Err(e) => Err(e),
        },
        Plan::Move { from, to } => move_path(
            store,
            interner,
            roots,
            from.as_str(),
            to.as_str(),
            look,
            at_unix_ms,
        ),
    };
    match recorded {
        Err(e) => Err(e),
        Ok(None) => Ok(()),
        Ok(Some(id)) => {
            let entered = enqueue(store, id, at_unix);
            Ok(())
        },
    }
}

// Laws.

/// What is asked not to be indexed is never recorded, neither as itself nor as
/// one end of a move.
pub proof fn what_is_excluded_is_never_recorded(
    change: ChangeView,
    skip_dirs: Seq<String>,
    plan: Plan,
)
    requires
        is_plan(change, skip_dirs, plan),
    ensures
        match plan {
            Plan::Record(path) => !excluded(path@, skip_dirs),
            Plan::Remove(path) => !excluded(path@, skip_dirs),
            Plan::Move { from, to } => !excluded(from@, skip_dirs) && !excluded(to@, skip_dirs),
            Plan::Ignore => true,
            Plan::Rescan => true,
        },
{
}

/// The names upwards of every file stay the same while every row keeps its
/// place.
proof fn lemma_names_stay(t: Tables, u: Tables, id: FileId, depth: nat)
    requires
        u.components == t.components,
        u.files.len() == t.files.len(),
        forall|i: int|
            0 <= i < t.files.len() ==> at_place(
                #[trigger] u.files[i],
                t.files[i].parent_id,
                t.files[i].component_id,
            ),
    ensures
        names_upwards(u, id, depth) == names_upwards(t, id, depth),
    decreases depth,
{
    if depth > 0 && t.has_file(id) {
        assert(at_place(u.files[id - 1], t.file(id).parent_id, t.file(id).component_id));
        if let Some(p) = t.file(id).parent_id {
            lemma_names_stay(t, u, p, (depth - 1) as nat);
        }
    }
}

/// A deletion loses nothing: the row stays, every path resolves as before, and
/// the deletion is one more event.
pub proof fn a_deletion_loses_nothing(t: Tables, id: FileId, at: i64)
    requires
        t.has_file(id),
    ensures
        ({
            let u = tombstoned(t, id, at);
            &&& u.files.len() == t.files.len()
            &&& u.file(id).deleted_at == Some(at)
            &&& u.events == t.events.push(entry_event(id, EventKind::Deleted, at, None))
            &&& forall|x: FileId| #[trigger] path_of(u, x) == path_of(t, x)
        }),
{
    let u = tombstoned(t, id, at);
    assert forall|x: FileId| #[trigger] path_of(u, x) == path_of(t, x) by {
        lemma_names_stay(t, u, x, MAX_DEPTH as nat);
    }
}

/// Chains of names that lead to one row are of one length.
proof fn lemma_one_height(t: Tables, m: Seq<Seq<char>>, n: Seq<Seq<char>>)
    requires
        t.wf(),
        follow(t, m) is Some,
        follow(t, m) == follow(t, n),
    ensures
        m.len() == n.len(),
    decreases m.len(),
{
    if m.len() > 0 && n.len() > 0 {
        let id = follow(t, m)->0->0;
        lemma_entry_place(t, follow(t, m.drop_last())->0, m.last());
        lemma_entry_place(t, follow(t, n.drop_last())->0, n.last());
        assert(t.file(id).parent_id == follow(t, m.drop_last())->0);
        lemma_one_height(t, m.drop_last(), n.drop_last());
    }
}

/// An entry stands where it is found.
pub(crate) proof fn lemma_entry_place(t: Tables, parent: Option<FileId>, name: Seq<char>)
    requires
        t.files.len() <= i64::MAX,
    ensures
        entry_at(t, parent, name) matches Some(id) ==> t.components.contains(name) && is_chosen(
            t.files,
            parent,
            (t.components.index_of(name) + 1) as i64,
            id - 1,
        ),
{
    if t.components.contains(name) {
        let component = (t.components.index_of(name) + 1) as i64;
        if let Some(i) = chosen(t.files, parent, component) {
            assert(is_chosen(t.files, parent, component, i));
        }
    }
}

/// Where a row is tombstoned, another place keeps its entry.
proof fn lemma_other_place(
    t: Tables,
    id: FileId,
    at: i64,
    parent: Option<FileId>,
    component: ComponentId,
)
    requires
        t.has_file(id),
        !at_place(t.file(id), parent, component),
    ensures
        chosen(tombstoned(t, id, at).files, parent, component) == chosen(
            t.files,
            parent,
            component,
        ),
{
    let u = tombstoned(t, id, at);
    assert forall|i: int|
        is_chosen(u.files, parent, component, i) == is_chosen(t.files, parent, component, i) by {
        if is_chosen(u.files, parent, component, i) {
            assert forall|j: int|
                0 <= j < t.files.len() && j != i && at_place(
                    #[trigger] t.files[j],
                    parent,
                    component,
                ) implies preferred(t.files, i, j) by {
                assert(at_place(u.files[j], parent, component));
            }
        }
        if is_chosen(t.files, parent, component, i) {
            assert forall|j: int|
                0 <= j < u.files.len() && j != i && at_place(
                    #[trigger] u.files[j],
                    parent,
                    component,
                ) implies preferred(u.files, i, j) by {
                assert(at_place(t.files[j], parent, component));
            }
        }
    }
    if let Some(i) = chosen(t.files, parent, component) {
        assert(is_chosen(t.files, parent, component, i));
        assert(is_chosen(u.files, parent, component, i));
        lemma_chosen_unique(t.files, parent, component, i);
        lemma_chosen_unique(u.files, parent, component, i);
    } else if let Some(i) = chosen(u.files, parent, component) {
        assert(is_chosen(u.files, parent, component, i));
        assert(is_chosen(t.files, parent, component, i));
    }
}

/// Where an entry is tombstoned, the directories above it are found as before.
proof fn lemma_follow_stays(
    t: Tables,
    dirs: Seq<Seq<char>>,
    name: Seq<char>,
    id: FileId,
    at: i64,
    n: int,
)
    requires
        t.wf(),
        live_entry(t, dirs, name) == Some(id),
        0 <= n <= dirs.len(),
    ensures
        follow(tombstoned(t, id, at), dirs.take(n)) == follow(t, dirs.take(n)),
    decreases n,
{
    if n > 0 {
        let u = tombstoned(t, id, at);
        let names = dirs.take(n);
        assert(names.drop_last() =~= dirs.take(n - 1));
        lemma_follow_stays(t, dirs, name, id, at, n - 1);
        if follow(t, names) is None {
            // a chain that does not lead on never reached the entry
            lemma_follow_stops(t, dirs, n);
            assert(false);
        }
        let parent = follow(t, names.drop_last())->0;
        let component = (t.components.index_of(names.last()) + 1) as i64;
        lemma_entry_place(t, parent, names.last());
        lemma_entry_place(t, follow(t, dirs)->0, name);
        if at_place(t.file(id), parent, component) {
            // the entry would be one of the directories above itself
            let whole = dirs.push(name);
            assert(whole.drop_last() =~= dirs);
            assert(follow(t, whole) == Some(Some(id)));
            lemma_live_is_chosen(t, id - 1);
            assert(follow(t, names) == Some(Some(id)));
            lemma_one_height(t, whole, names);
            assert(false);
        }
        lemma_other_place(t, id, at, parent, component);
    }
}

/// Removing a path that is live tombstones its entry and appends one event;
/// every path resolves as before, and removing the path a second time changes
/// nothing, nor does removing one that is not live.
pub proof fn a_path_is_removed_once(
    t: Tables,
    root: Seq<char>,
    path: Seq<char>,
    first: i64,
    second: i64,
)
    requires
        t.wf(),
    ensures
        ({
            let once = removed(t, root, path, first);
            let twice = removed(once.tables, root, path, second);
            &&& match once.file {
                Some(id) => {
                    &&& t.has_file(id) && t.file(id).deleted_at is None
                    &&& once.tables == tombstoned(t, id, first)
                    &&& once.tables.files.len() == t.files.len()
                    &&& once.tables.file(id).deleted_at == Some(first)
                    &&& once.tables.events == t.events.push(
                        entry_event(id, EventKind::Deleted, first, None),
                    )
                    &&& forall|x: FileId| #[trigger] path_of(once.tables, x) == path_of(t, x)
                },
                None => once.tables == t,
            }
            &&& twice.tables == once.tables
            &&& twice.file is None
        }),
{
    let once = removed(t, root, path, first);
    if let Some(id) = once.file {
        let name = file_name_of(path)->0;
        let dirs = dirs_to(root, path);
        let u = once.tables;
        let parent = follow(t, dirs)->0;
        let component = (t.components.index_of(name) + 1) as i64;
        lemma_entry_place(t, parent, name);
        a_deletion_loses_nothing(t, id, first);
        assert(dirs.take(dirs.len() as int) =~= dirs);
        lemma_follow_stays(t, dirs, name, id, first, dirs.len() as int);
        lemma_entry_place(u, parent, name);
        if let Some(other) = entry_at(u, parent, name) {
            if u.file(other).deleted_at is None {
                // it would be a second live entry of the name
                assert(other != id);
                assert(t.files[other - 1] == u.files[other - 1]);
                assert(t.files[id - 1].deleted_at is None);
                lemma_live_is_chosen(t, other - 1);
                lemma_live_is_chosen(t, id - 1);
                assert(false);
            }
        }
    }
}

/// A file that is deleted and comes back is the same file, where its deletion
/// is the latest at its place.
pub proof fn a_recreated_file_keeps_its_id(
    t: Tables,
    id: FileId,
    at: i64,
    is_dir: bool,
    size_bytes: Option<i64>,
    mtime_unix: Option<i64>,
)
    requires
        t.wf(),
        t.has_file(id),
        t.file(id).deleted_at is None,
        forall|j: int|
            0 <= j < t.files.len() && j != id - 1 && at_place(
                #[trigger] t.files[j],
                t.file(id).parent_id,
                t.file(id).component_id,
            ) ==> (t.files[j].deleted_at matches Some(earlier) ==> earlier < at),
    ensures
        ({
            let gone = tombstoned(t, id, at);
            let (back, found) = upsert(
                gone,
                t.file(id).parent_id,
                t.file(id).component_id,
                is_dir,
                size_bytes,
                mtime_unix,
            );
            &&& found == id
            &&& back.files.len() == t.files.len()
            &&& back.file(id).deleted_at is None
            &&& back.events == gone.events
        }),
{
    let gone = tombstoned(t, id, at);
    let row = t.file(id);
    assert forall|j: int|
        0 <= j < gone.files.len() && j != id - 1 && at_place(
            #[trigger] gone.files[j],
            row.parent_id,
            row.component_id,
        ) implies preferred(gone.files, id - 1, j) by {
        assert(gone.files[j] == t.files[j]);
        if t.files[j].deleted_at is None {
            lemma_live_is_chosen(t, id - 1);
            lemma_live_is_chosen(t, j);
        }
    }
    assert(is_chosen(gone.files, row.parent_id, row.component_id, id - 1));
    lemma_chosen_unique(gone.files, row.parent_id, row.component_id, id - 1);
}

/// The names upwards of a file that does not lie below a moved one stay.
proof fn lemma_names_beside(
    t: Tables,
    u: Tables,
    names: Seq<Seq<char>>,
    x: FileId,
    moved_names: Seq<Seq<char>>,
    id: FileId,
    depth: nat,
)
    requires
        leads_to(t, names, x),
        leads_to(t, moved_names, id),
        !moved_names.is_prefix_of(names),
        u.components == t.components,
        u.files.len() == t.files.len(),
        forall|i: int|
            0 <= i < t.files.len() && i != id - 1 ==> at_place(
                #[trigger] u.files[i],
                t.files[i].parent_id,
                t.files[i].component_id,
            ),
    ensures
        names_upwards(u, x, depth) == names_upwards(t, x, depth),
        names.len() <= depth ==> names_upwards(t, x, depth) == names.reverse(),
    decreases names.len(),
{
    if x == id {
        lemma_led_by_one(t, names, moved_names, id);
        assert(false);
    }
    assert(at_place(u.files[x - 1], t.file(x).parent_id, t.file(x).component_id));
    if depth > 0 {
        if let Some(p) = t.file(x).parent_id {
            let shorter = names.drop_last();
            if moved_names.is_prefix_of(shorter) {
                assert(moved_names =~= names.subrange(0, moved_names.len() as int));
            }
            lemma_names_beside(t, u, shorter, p, moved_names, id, (depth - 1) as nat);
        }
        if names.len() <= depth {
            assert(names_upwards(t, x, depth) =~= names.reverse());
        }
    }
}

/// What a move leaves in the tables.
proof fn lemma_moved_rows(
    t: Tables,
    id: FileId,
    parent: FileId,
    component: ComponentId,
    stat: Stat,
    at: i64,
)
    requires
        t.wf(),
        t.has_file(id),
    ensures
        ({
            let u = moved(t, id, parent, component, stat, at);
            &&& u.components == t.components
            &&& u.files.len() == t.files.len()
            &&& at_place(u.file(id), Some(parent), component)
            &&& u.file(id).deleted_at is None
            &&& u.file(id).is_dir == t.file(id).is_dir
            &&& forall|i: int|
                0 <= i < t.files.len() && i != id - 1 ==> at_place(
                    #[trigger] u.files[i],
                    t.files[i].parent_id,
                    t.files[i].component_id,
                )
            &&& t.events.is_prefix_of(u.events)
            &&& !t.file(id).is_dir ==> {
                &&& u.events.len() > t.events.len()
                &&& u.events.last().file_id == id
                &&& u.events.last().kind == EventKind::Renamed
                &&& u.events.last().at_unix_ms == at
                &&& u.events.last().prev_parent_id == t.file(id).parent_id
                &&& u.events.last().prev_component_id == Some(t.file(id).component_id)
            }
        }),
{
    if let Some(i) = chosen(t.files, Some(parent), component) {
        assert(is_chosen(t.files, Some(parent), component, i));
    }
}

/// A file that moves keeps its id, is found at its new path from then on, and
/// the move is an event that tells the path it had. A directory that moves keeps
/// its id too and is found at its new path; its move is no event.
pub proof fn a_moved_file_tells_where_it_was(
    t: Tables,
    id: FileId,
    names: Seq<Seq<char>>,
    parent: FileId,
    above: Seq<Seq<char>>,
    component: ComponentId,
    stat: Stat,
    at: i64,
)
    requires
        t.wf(),
        leads_to(t, names, id),
        names.len() <= MAX_DEPTH,
        leads_to(t, above, parent),
        above.len() < MAX_DEPTH,
        !names.is_prefix_of(above),
        t.has_component(component),
    ensures
        ({
            let u = moved(t, id, parent, component, stat, at);
            let event = u.events.last();
            &&& path_of(t, id) == joined(names)
            &&& path_of(u, id) == joined(above.push(t.components[component - 1]))
            &&& u.file(id).deleted_at is None
            &&& u.file(id).parent_id == Some(parent)
            &&& u.file(id).component_id == component
            &&& u.files.len() == t.files.len()
            &&& t.events.is_prefix_of(u.events)
            &&& !t.file(id).is_dir ==> {
                &&& u.events.len() > t.events.len()
                &&& event.file_id == id
                &&& event.kind == EventKind::Renamed
                &&& event.at_unix_ms == at
                &&& previous_path_of(u, event.prev_parent_id, event.prev_component_id) == Some(
                    path_of(t, id),
                )
            }
            &&& t.file(id).is_dir ==> forall|i: int|
                t.events.len() <= i < u.events.len() ==> (#[trigger] u.events[i]).file_id != id
        }),
{
    lemma_moved_rows(t, id, parent, component, stat, at);
    lemma_place_before(t, id, names, parent, component, stat, at);
    lemma_place_after(t, id, names, parent, above, component, stat, at);
}

/// Where a file that moves was can be told after the move.
proof fn lemma_place_before(
    t: Tables,
    id: FileId,
    names: Seq<Seq<char>>,
    parent: FileId,
    component: ComponentId,
    stat: Stat,
    at: i64,
)
    requires
        t.wf(),
        leads_to(t, names, id),
        names.len() <= MAX_DEPTH,
        t.has_file(parent),
        t.has_component(component),
    ensures
        ({
            let u = moved(t, id, parent, component, stat, at);
            let row = t.file(id);
            &&& path_of(t, id) == joined(names)
            &&& previous_path_of(u, row.parent_id, Some(row.component_id)) == Some(path_of(t, id))
        }),
{
    let u = moved(t, id, parent, component, stat, at);
    let depth = MAX_DEPTH as nat;
    lemma_moved_rows(t, id, parent, component, stat, at);
    assert(names.reverse().reverse() =~= names);
    assert(names =~= names.drop_last().push(names.last()));
    match t.file(id).parent_id {
        Some(p) => {
            let home = names.drop_last();
            lemma_names_beside(t, u, home, p, names, id, depth);
            lemma_names_beside(t, u, home, p, names, id, (depth - 1) as nat);
            assert(names_upwards(t, id, depth) =~= names.reverse());
            assert(home.reverse().reverse() =~= home);
        },
        None => {
            assert(names_upwards(t, id, depth) =~= names.reverse());
            assert(joined(names.drop_last()) =~= Seq::<char>::empty());
            assert(joined(names) =~= seq!['/'] + names.last());
        },
    }
}

/// Where a file that moved is.
proof fn lemma_place_after(
    t: Tables,
    id: FileId,
    names: Seq<Seq<char>>,
    parent: FileId,
    above: Seq<Seq<char>>,
    component: ComponentId,
    stat: Stat,
    at: i64,
)
    requires
        t.wf(),
        leads_to(t, names, id),
        leads_to(t, above, parent),
        above.len() < MAX_DEPTH,
        !names.is_prefix_of(above),
        t.has_component(component),
    ensures
        path_of(moved(t, id, parent, component, stat, at), id) == joined(
            above.push(t.components[component - 1]),
        ),
{
    let u = moved(t, id, parent, component, stat, at);
    let depth = MAX_DEPTH as nat;
    lemma_moved_rows(t, id, parent, component, stat, at);
    lemma_names_beside(t, u, above, parent, names, id, (depth - 1) as nat);
    let new_names = above.push(t.components[component - 1]);
    assert(names_upwards(u, id, depth) =~= new_names.reverse());
    assert(new_names.reverse().reverse() =~= new_names);
}

/// Whether a row hangs below another by these names, whatever of it is live.
pub open spec fn hangs_below(t: Tables, id: FileId, names: Seq<Seq<char>>, x: FileId) -> bool
    decreases names.len(),
{
    if names.len() == 0 {
        x == id
    } else {
        &&& t.has_file(x)
        &&& x != id
        &&& t.components[t.file(x).component_id - 1] == names.last()
        &&& t.file(x).parent_id matches Some(p) && hangs_below(t, id, names.drop_last(), p)
    }
}

/// What hangs below a directory that moves moves with it: the path of every row there
/// is the directory's new path followed by what came behind the old one.
pub proof fn a_move_takes_along_what_is_below(
    t: Tables,
    id: FileId,
    names: Seq<Seq<char>>,
    parent: FileId,
    above: Seq<Seq<char>>,
    component: ComponentId,
    stat: Stat,
    at: i64,
    x: FileId,
    below: Seq<Seq<char>>,
)
    requires
        t.wf(),
        leads_to(t, names, id),
        leads_to(t, above, parent),
        !names.is_prefix_of(above),
        t.has_component(component),
        hangs_below(t, id, below, x),
        names.len() + below.len() <= MAX_DEPTH,
        above.len() + 1 + below.len() <= MAX_DEPTH,
    ensures
        ({
            let u = moved(t, id, parent, component, stat, at);
            &&& path_of(t, x) == joined(names + below)
            &&& path_of(u, x) == joined(above.push(t.components[component - 1]) + below)
            &&& x != id ==> u.file(x).parent_id == t.file(x).parent_id && u.file(x).component_id
                == t.file(x).component_id
        }),
{
    let u = moved(t, id, parent, component, stat, at);
    let top = above.push(t.components[component - 1]);
    let depth = MAX_DEPTH as nat;
    lemma_moved_rows(t, id, parent, component, stat, at);
    lemma_names_led(t, names, id, (depth - below.len()) as nat);
    lemma_names_hanging(t, t, id, names, x, below, depth);
    lemma_row_after(t, id, names, parent, above, component, stat, at, (depth - below.len()) as nat);
    lemma_names_hanging(t, u, id, top, x, below, depth);
    assert((names + below).reverse().reverse() =~= names + below);
    assert((top + below).reverse().reverse() =~= top + below);
}

/// The names upwards of a file that moved.
proof fn lemma_row_after(
    t: Tables,
    id: FileId,
    names: Seq<Seq<char>>,
    parent: FileId,
    above: Seq<Seq<char>>,
    component: ComponentId,
    stat: Stat,
    at: i64,
    depth: nat,
)
    requires
        t.wf(),
        leads_to(t, names, id),
        leads_to(t, above, parent),
        above.len() < depth,
        !names.is_prefix_of(above),
        t.has_component(component),
    ensures
        names_upwards(moved(t, id, parent, component, stat, at), id, depth) == above.push(
            t.components[component - 1],
        ).reverse(),
{
    let u = moved(t, id, parent, component, stat, at);
    lemma_moved_rows(t, id, parent, component, stat, at);
    lemma_names_beside(t, u, above, parent, names, id, (depth - 1) as nat);
    let new_names = above.push(t.components[component - 1]);
    assert(names_upwards(u, id, depth) =~= new_names.reverse());
}

/// The names upwards of what hangs below a row, in tables where all but that row stand
/// in their places.
pub(crate) proof fn lemma_names_hanging(
    t: Tables,
    u: Tables,
    id: FileId,
    top: Seq<Seq<char>>,
    x: FileId,
    below: Seq<Seq<char>>,
    depth: nat,
)
    requires
        t.wf(),
        hangs_below(t, id, below, x),
        u.components == t.components,
        u.files.len() == t.files.len(),
        forall|i: int|
            0 <= i < t.files.len() && i != id - 1 ==> at_place(
                #[trigger] u.files[i],
                t.files[i].parent_id,
                t.files[i].component_id,
            ),
        below.len() <= depth,
        names_upwards(u, id, (depth - below.len()) as nat) == top.reverse(),
    ensures
        names_upwards(u, x, depth) == (top + below).reverse(),
    decreases below.len(),
{
    if below.len() == 0 {
        assert(top + below =~= top);
    } else {
        let p = t.file(x).parent_id->0;
        assert(at_place(u.files[x - 1], t.file(x).parent_id, t.file(x).component_id));
        lemma_names_hanging(t, u, id, top, p, below.drop_last(), (depth - 1) as nat);
        assert(names_upwards(u, x, depth) =~= (top + below).reverse());
    }
}

/// The names upwards of a row that names lead to.
pub(crate) proof fn lemma_names_led(t: Tables, names: Seq<Seq<char>>, id: FileId, depth: nat)
    requires
        leads_to(t, names, id),
        names.len() <= depth,
    ensures
        names_upwards(t, id, depth) == names.reverse(),
    decreases names.len(),
{
    if let Some(p) = t.file(id).parent_id {
        lemma_names_led(t, names.drop_last(), p, (depth - 1) as nat);
    }
    assert(names_upwards(t, id, depth) =~= names.reverse());
}

/// Observing directories appends no event.
proof fn lemma_chain_keeps_events(t: Tables, start: Option<FileId>, names: Seq<Seq<char>>)
    ensures
        dir_chain(t, start, names).0.events == t.events,
    decreases names.len(),
{
    if names.len() > 0 {
        lemma_chain_keeps_events(t, start, names.drop_last());
    }
}

/// The log is only ever appended to, by at most one event for a path that was
/// touched or removed.
pub proof fn recording_a_path_only_appends(
    t: Tables,
    roots: Seq<String>,
    path: Seq<char>,
    look: Look,
    at: i64,
)
    ensures
        path_recorded(t, roots, path, look, at) matches Some(r) ==> {
            &&& t.events.is_prefix_of(r.tables.events)
            &&& r.tables.events.len() <= t.events.len() + 1
        },
        removal_recorded(t, roots, path, at) matches Some(r) ==> {
            &&& t.events.is_prefix_of(r.tables.events)
            &&& r.tables.events.len() <= t.events.len() + 1
        },
{
    if let Some(root) = owner_of(roots, path) {
        lemma_chain_keeps_events(t, None, components_of(root));
        let (rooted, root_id) = dir_chain(t, None, components_of(root));
        lemma_chain_keeps_events(rooted, root_id, dirs_below(root, path));
        lemma_chain_keeps_events(rooted, Some(root_id->0), dirs_below(root, path));
    }
}

/// The log is only ever appended to by a move too: by one event for what moved
/// and one for what it replaced.
pub proof fn recording_a_move_only_appends(
    t: Tables,
    from_root: Seq<char>,
    from: Seq<char>,
    to_root: Seq<char>,
    to: Seq<char>,
    stat: Stat,
    at: i64,
)
    ensures
        ({
            let r = renamed(t, from_root, from, to_root, to, stat, at);
            &&& t.events.is_prefix_of(r.tables.events)
            &&& r.tables.events.len() <= t.events.len() + 2
        }),
{
    lemma_chain_keeps_events(t, None, components_of(to_root));
    let (placed, to_id) = dir_chain(t, None, components_of(to_root));
    lemma_chain_keeps_events(placed, to_id, dirs_below(to_root, to));
    lemma_chain_keeps_events(placed, Some(to_id->0), dirs_below(to_root, to));
}

/// What stood at the place that something moves to is marked as gone, and an event tells
/// of it before the one that tells of the move. No row changes but those two.
pub proof fn a_move_replaces_what_was_there(
    t: Tables,
    id: FileId,
    other: FileId,
    parent: FileId,
    component: ComponentId,
    stat: Stat,
    at: i64,
)
    requires
        t.wf(),
        t.has_file(id),
        t.has_file(other),
        other != id,
        t.file(other).deleted_at is None,
        t.file(other).parent_id == Some(parent),
        t.file(other).component_id == component,
    ensures
        ({
            let u = moved(t, id, parent, component, stat, at);
            let gone = NewEvent {
                file_id: other,
                kind: EventKind::Deleted,
                at_unix_ms: at,
                size_bytes: None,
                prev_parent_id: None,
                prev_component_id: None,
            };
            &&& u.file(other) == (FileRow { deleted_at: Some(at), ..t.file(other) })
            &&& t.events.push(gone).is_prefix_of(u.events)
            &&& u.events.len() == t.events.len() + (if t.file(id).is_dir {
                1int
            } else {
                2int
            })
            &&& u.file(id).deleted_at is None && u.file(id).parent_id == Some(parent) && u.file(
                id,
            ).component_id == component
            &&& forall|x: FileId|
                t.has_file(x) && x != id && x != other ==> #[trigger] u.file(x) == t.file(x)
        }),
{
    lemma_live_is_chosen(t, other - 1);
}

} // verus!
