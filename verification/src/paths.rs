//! Path interning: turning filesystem paths into component ids and back.
//!
//! No table holds a path. A path is a chain of components, each interned once,
//! with every file pointing at the directory that contains it. This module is
//! the only place that converts between the two.
//!
//! # The cache, and what does not go in it
//!
//! Directory names repeat enormously and are cached. Leaf names are nearly all
//! distinct, so caching them would hold one entry per file in memory; they are
//! looked up and never cached. The cache never changes an answer, only how
//! fast it is reached. When it is full it is cleared.
use vstd::hash_map::StringHashMap;
use vstd::prelude::*;

use crate::fspath::{components_of, joined, normalised_components, texts};
use crate::store::{ComponentId, FileId, FileRow, Store, StoreError, Tables};

verus! {

/// Directory names cached before the cache is cleared.
pub const CACHE_CAPACITY: usize = 16_384;

/// How many components a path is followed upwards for.
pub const MAX_DEPTH: usize = 256;

/// The id that a name has, or would get, and the tables with it interned.
pub open spec fn intern(t: Tables, name: Seq<char>) -> (Tables, ComponentId) {
    if t.components.contains(name) {
        (t, (t.components.index_of(name) + 1) as i64)
    } else {
        (t.add_component(name), (t.components.len() + 1) as i64)
    }
}

/// Interns path components, caching the hot ones.
pub struct Interner {
    cache: StringHashMap<ComponentId>,
}

impl Interner {
    /// What is cached.
    pub closed spec fn view(&self) -> Map<Seq<char>, ComponentId> {
        self.cache@
    }

    /// The cache is bounded, and everything in it is what the tables say.
    pub open spec fn agrees(self, t: Tables) -> bool {
        &&& self@.dom().finite()
        &&& self@.len() <= CACHE_CAPACITY
        &&& forall|name: Seq<char>| #[trigger]
            self@.contains_key(name) ==> t.has_component(self@[name]) && t.components[self@[name]
                - 1] == name
    }

    /// An interner that has cached nothing.
    pub fn new() -> (r: Interner)
        ensures
            r@ == Map::<Seq<char>, ComponentId>::empty(),
            forall|t: Tables| r.agrees(t),
    {
        Interner { cache: StringHashMap::new() }
    }

    /// Number of cached components.
    pub fn cached(&self) -> (r: usize)
        ensures
            r == self@.len(),
    {
        self.cache.len()
    }

    /// Intern a **directory** component, caching the result.
    pub fn intern_dir(&mut self, store: &mut Store, name: &str) -> (r: ComponentId)
        requires
            old(store).wf(),
            old(self).agrees(old(store)@),
            old(store)@.components.len() < i64::MAX,
        ensures
            final(store).wf(),
            (final(store)@, r) == intern(old(store)@, name@),
            final(store)@.has_component(r),
            final(store)@.components[r - 1] == name@,
            final(self).agrees(final(store)@),
            final(self)@ == (if old(self)@.contains_key(name@) {
                old(self)@
            } else if old(self)@.len() >= CACHE_CAPACITY {
                Map::empty().insert(name@, r)
            } else {
                old(self)@.insert(name@, r)
            }),
            final(store).taken() == old(store).taken(),
    {
        if let Some(id) = self.cache.get(name) {
            proof {
                lemma_index_of(old(store)@.components, name@, *id - 1);
            }
            return *id;
        }
        let id = lookup_or_insert(store, name);
        if self.cache.len() >= CACHE_CAPACITY {
            self.cache.clear();
        }
        self.cache.insert(name.to_owned(), id);
        id
    }

    /// Intern a **leaf** name without caching it.
    ///
    /// The cache is still read: a name that is also a directory name is then
    /// found without a lookup.
    pub fn intern_leaf(&mut self, store: &mut Store, name: &str) -> (r: ComponentId)
        requires
            old(store).wf(),
            old(self).agrees(old(store)@),
            old(store)@.components.len() < i64::MAX,
        ensures
            final(store).wf(),
            (final(store)@, r) == intern(old(store)@, name@),
            final(store)@.has_component(r),
            final(store)@.components[r - 1] == name@,
            final(self)@ == old(self)@,
            final(self).agrees(final(store)@),
            final(store).taken() == old(store).taken(),
    {
        if let Some(id) = self.cache.get(name) {
            proof {
                lemma_index_of(old(store)@.components, name@, *id - 1);
            }
            return *id;
        }
        lookup_or_insert(store, name)
    }

    /// Read back the name for a component id.
    pub fn name(&self, store: &Store, id: ComponentId) -> (r: Option<String>)
        requires
            store.wf(),
        ensures
            r is Some <==> store@.has_component(id),
            r matches Some(name) ==> name@ == store@.components[id - 1],
    {
        if store.has_component(id) {
            Some(store.component_name(id).clone())
        } else {
            None
        }
    }
}

impl Default for Interner {
    fn default() -> (r: Interner)
        ensures
            r@ == Map::<Seq<char>, ComponentId>::empty(),
    {
        Interner::new()
    }
}

/// In a sequence without duplicates a value stands at one position only.
pub proof fn lemma_index_of(names: Seq<Seq<char>>, name: Seq<char>, i: int)
    requires
        names.no_duplicates(),
        0 <= i < names.len(),
        names[i] == name,
    ensures
        names.contains(name),
        names.index_of(name) == i,
{
}

/// Look a name up, and add it where it is not interned yet.
fn lookup_or_insert(store: &mut Store, name: &str) -> (r: ComponentId)
    requires
        old(store).wf(),
        old(store)@.components.len() < i64::MAX,
    ensures
        final(store).wf(),
        (final(store)@, r) == intern(old(store)@, name@),
        final(store)@.has_component(r),
        final(store)@.components[r - 1] == name@,
        final(store).taken() == old(store).taken(),
{
    match store.find_component(name) {
        Some(id) => {
            proof {
                lemma_index_of(old(store)@.components, name@, id - 1);
            }
            id
        },
        None => store.add_component(name.to_owned()),
    }
}

/// Whether a row stands at this place in the tree.
pub open spec fn at_place(row: FileRow, parent: Option<FileId>, component: ComponentId) -> bool {
    row.parent_id == parent && row.component_id == component
}

/// Whether row `i` is taken rather than row `j` of the same place: a live row
/// before a tombstone, a later tombstone before an earlier one, and otherwise
/// the row that was added first.
pub open spec fn preferred(files: Seq<FileRow>, i: int, j: int) -> bool {
    match (files[i].deleted_at, files[j].deleted_at) {
        (None, None) => i < j,
        (None, Some(_)) => true,
        (Some(_), None) => false,
        (Some(a), Some(b)) => a > b || (a == b && i < j),
    }
}

/// Whether row `i` is the one that stands for this place.
pub open spec fn is_chosen(
    files: Seq<FileRow>,
    parent: Option<FileId>,
    component: ComponentId,
    i: int,
) -> bool {
    &&& 0 <= i < files.len()
    &&& at_place(files[i], parent, component)
    &&& forall|j: int|
        0 <= j < files.len() && j != i && at_place(#[trigger] files[j], parent, component)
            ==> preferred(files, i, j)
}

/// The row that stands for a place in the tree, if there is any.
pub open spec fn chosen(
    files: Seq<FileRow>,
    parent: Option<FileId>,
    component: ComponentId,
) -> Option<int> {
    if exists|i: int| is_chosen(files, parent, component, i) {
        Some(choose|i: int| is_chosen(files, parent, component, i))
    } else {
        None
    }
}

/// At most one row stands for a place.
pub proof fn lemma_chosen_unique(
    files: Seq<FileRow>,
    parent: Option<FileId>,
    component: ComponentId,
    i: int,
)
    requires
        is_chosen(files, parent, component, i),
    ensures
        chosen(files, parent, component) == Some(i),
{
    let k = choose|k: int| is_chosen(files, parent, component, k);
    assert(is_chosen(files, parent, component, k));
    if k != i {
        assert(preferred(files, i, k));
        assert(preferred(files, k, i));
    }
}

/// The row that stands for a place.
pub(crate) fn find_entry(
    store: &Store,
    parent: Option<FileId>,
    component: ComponentId,
) -> (r: Option<FileId>)
    requires
        store.wf(),
    ensures
        match r {
            Some(id) => store@.has_file(id) && is_chosen(
                store@.files,
                parent,
                component,
                id - 1,
            ) && chosen(store@.files, parent, component) == Some(id - 1),
            None => chosen(store@.files, parent, component) is None && forall|j: int|
                0 <= j < store@.files.len() ==> !at_place(
                    #[trigger] store@.files[j],
                    parent,
                    component,
                ),
        },
{
    let candidates = store.files_named(component);
    let mut best: Option<usize> = None;
    let mut k: usize = 0;
    let ghost files = store@.files;
    while k < candidates.len()
        invariant
            0 <= k <= candidates.len(),
            store.wf(),
            files == store@.files,
            files.len() <= i64::MAX,
            forall|m: int| 0 <= m < candidates.len() ==> 0 <= #[trigger] candidates@[m] < files.len(),
            forall|i: int|
                0 <= i < files.len() && (#[trigger] files[i]).component_id == component
                    ==> candidates@.contains(i as usize),
            best matches Some(b) ==> b < files.len() && at_place(
                files[b as int],
                parent,
                component,
            ),
            forall|m: int|
                0 <= m < k && at_place(files[#[trigger] candidates@[m] as int], parent, component)
                    ==> best is Some && (candidates@[m] == best->0 || preferred(
                    files,
                    best->0 as int,
                    candidates@[m] as int,
                )),
        decreases candidates.len() - k,
    {
        let i = candidates[k];
        let row = store.file(i as i64 + 1);
        if same_id(row.parent_id, parent) && row.component_id == component {
            let better = match best {
                None => true,
                Some(b) => match (row.deleted_at, store.file(b as i64 + 1).deleted_at) {
                    (None, None) => i < b,
                    (None, Some(_)) => true,
                    (Some(_), None) => false,
                    (Some(x), Some(y)) => x > y || (x == y && i < b),
                },
            };
            if better {
                best = Some(i);
            }
        }
        k = k + 1;
    }
    proof {
        assert forall|j: int|
            0 <= j < files.len() && at_place(#[trigger] files[j], parent, component) implies best
            is Some && (j == best->0 || preferred(files, best->0 as int, j)) by {
            assert(candidates@.contains(j as usize));
            let m = choose|m: int| 0 <= m < candidates@.len() && candidates@[m] == j as usize;
            assert(candidates@[m] == j);
        }
    }
    match best {
        Some(b) => {
            proof {
                assert(is_chosen(files, parent, component, b as int));
                lemma_chosen_unique(files, parent, component, b as int);
            }
            Some(b as i64 + 1)
        },
        None => None,
    }
}

/// Whether two optional ids are the same.
pub(crate) fn same_id(a: Option<i64>, b: Option<i64>) -> (r: bool)
    ensures
        r == (a == b),
{
    match (a, b) {
        (Some(x), Some(y)) => x == y,
        (None, None) => true,
        _ => false,
    }
}

/// The tables with an entry observed, and the entry's id.
///
/// The same entry observed twice updates its row rather than adding another,
/// and a tombstone that is observed again is live again.
pub open spec fn upsert(
    t: Tables,
    parent: Option<FileId>,
    component: ComponentId,
    is_dir: bool,
    size_bytes: Option<i64>,
    mtime_unix: Option<i64>,
) -> (Tables, FileId) {
    match chosen(t.files, parent, component) {
        Some(i) => (
            t.set_file(
                (i + 1) as i64,
                FileRow { size_bytes, mtime_unix, deleted_at: None, ..t.files[i] },
            ),
            (i + 1) as i64,
        ),
        None => (
            t.add_file(
                FileRow {
                    parent_id: parent,
                    component_id: component,
                    is_dir,
                    size_bytes,
                    mtime_unix,
                    deleted_at: None,
                },
            ),
            (t.files.len() + 1) as i64,
        ),
    }
}

/// Insert or fetch one `files` row.
pub fn upsert_entry(
    store: &mut Store,
    parent: Option<FileId>,
    component: ComponentId,
    is_dir: bool,
    size_bytes: Option<i64>,
    mtime_unix: Option<i64>,
) -> (r: Result<FileId, StoreError>)
    requires
        old(store).wf(),
        old(store)@.files.len() < i64::MAX,
    ensures
        final(store).wf(),
        final(store).taken() == old(store).taken(),
        match r {
            Ok(id) => {
                &&& (final(store)@, id) == upsert(
                    old(store)@,
                    parent,
                    component,
                    is_dir,
                    size_bytes,
                    mtime_unix,
                )
                &&& final(store)@.has_file(id)
            },
            Err(e) => e is MissingReference && final(store)@ == old(store)@,
        },
        r is Err <==> chosen(old(store)@.files, parent, component) is None && !(old(
            store,
        )@.parent_ok(parent) && old(store)@.has_component(component)),
{
    match find_entry(store, parent, component) {
        Some(id) => {
            let row = store.file(id);
            let updated = FileRow {
                parent_id: row.parent_id,
                component_id: row.component_id,
                is_dir: row.is_dir,
                size_bytes,
                mtime_unix,
                deleted_at: None,
            };
            proof {
                let files = store@.files;
                assert forall|i: int|
                    0 <= i < files.len() && i != id - 1 && (#[trigger] files[i]).deleted_at
                        is None implies !(files[i].parent_id == updated.parent_id
                    && files[i].component_id == updated.component_id) by {
                    if at_place(files[i], parent, component) {
                        assert(preferred(files, id - 1, i));
                    }
                }
            }
            store.set_file(id, updated);
            Ok(id)
        },
        None => {
            let known_parent = match parent {
                Some(p) => store.has_file(p),
                None => true,
            };
            if !known_parent || !store.has_component(component) {
                return Err(StoreError::MissingReference);
            }
            let row = FileRow {
                parent_id: parent,
                component_id: component,
                is_dir,
                size_bytes,
                mtime_unix,
                deleted_at: None,
            };
            Ok(store.add_file(row))
        },
    }
}

/// The tables with a chain of directories observed under each other, and the
/// id of the deepest.
pub open spec fn dir_chain(t: Tables, start: Option<FileId>, names: Seq<Seq<char>>) -> (
    Tables,
    Option<FileId>,
)
    decreases names.len(),
{
    if names.len() == 0 {
        (t, start)
    } else {
        let (before, parent) = dir_chain(t, start, names.drop_last());
        let (interned, component) = intern(before, names.last());
        let (after, id) = upsert(interned, parent, component, true, None, None);
        (after, Some(id))
    }
}

/// Observe a chain of directories under each other, below `start`.
pub(crate) fn ensure_dirs(
    store: &mut Store,
    interner: &mut Interner,
    start: Option<FileId>,
    names: &Vec<String>,
) -> (r: Option<FileId>)
    requires
        old(store).wf(),
        old(interner).agrees(old(store)@),
        old(store)@.parent_ok(start),
        old(store)@.room_for(names.len() as nat),
    ensures
        final(store).wf(),
        final(store).taken() == old(store).taken(),
        final(interner).agrees(final(store)@),
        (final(store)@, r) == dir_chain(old(store)@, start, texts(names@)),
        final(store)@.parent_ok(r),
        r is None <==> start is None && names.len() == 0,
        final(store)@.components.len() <= old(store)@.components.len() + names.len(),
        final(store)@.files.len() <= old(store)@.files.len() + names.len(),
        final(store)@.files.len() >= old(store)@.files.len(),
        final(store)@.components.len() >= old(store)@.components.len(),
        final(store)@.events == old(store)@.events,
{
    let ghost all = texts(names@);
    let mut parent = start;
    let mut i: usize = 0;
    assert(all.take(0) =~= Seq::<Seq<char>>::empty());
    while i < names.len()
        invariant
            0 <= i <= names.len(),
            all == texts(names@),
            store.wf(),
            store.taken() == old(store).taken(),
            interner.agrees(store@),
            store@.parent_ok(parent),
            (store@, parent) == dir_chain(old(store)@, start, all.take(i as int)),
            store@.components.len() <= old(store)@.components.len() + i,
            store@.files.len() <= old(store)@.files.len() + i,
            store@.files.len() >= old(store)@.files.len(),
            store@.components.len() >= old(store)@.components.len(),
            store@.events == old(store)@.events,
            old(store)@.room_for(names.len() as nat),
            parent is None <==> start is None && i == 0,
        decreases names.len() - i,
    {
        proof {
            assert(all.take(i + 1).drop_last() =~= all.take(i as int));
            assert(all.take(i + 1).last() == names@[i as int]@);
        }
        let component = interner.intern_dir(store, names[i].as_str());
        assert(store@.parent_ok(parent));
        let observed = upsert_entry(store, parent, component, true, None, None);
        match observed {
            Ok(id) => {
                parent = Some(id);
            },
            Err(_) => {
                assert(false);
            },
        }
        i = i + 1;
    }
    assert(all.take(i as int) =~= all);
    parent
}

/// Ensure a directory chain exists, returning the id of the deepest directory.
pub fn ensure_dir_chain(store: &mut Store, interner: &mut Interner, dir: &str) -> (r: Result<
    FileId,
    StoreError,
>)
    requires
        old(store).wf(),
        old(interner).agrees(old(store)@),
        old(store)@.room_for(components_of(dir@).len()),
    ensures
        final(store).wf(),
        final(store).taken() == old(store).taken(),
        final(interner).agrees(final(store)@),
        match r {
            Ok(id) => {
                &&& (final(store)@, Some(id)) == dir_chain(old(store)@, None, components_of(dir@))
                &&& final(store)@.has_file(id)
            },
            Err(e) => e is EmptyPath && final(store)@ == old(store)@ && *final(interner) == *old(
                interner,
            ),
        },
        r is Err <==> components_of(dir@).len() == 0,
{
    let names = normalised_components(dir);
    assert(names.len() == components_of(dir@).len());
    if names.len() == 0 {
        return Err(StoreError::EmptyPath);
    }
    match ensure_dirs(store, interner, None, &names) {
        Some(id) => Ok(id),
        None => Err(StoreError::EmptyPath),
    }
}

/// The names from a file up to the root of its path, the file's own first,
/// following at most `depth` rows and stopping at a reference to nothing.
pub open spec fn names_upwards(t: Tables, id: FileId, depth: nat) -> Seq<Seq<char>>
    decreases depth,
{
    if depth == 0 || !t.has_file(id) {
        Seq::empty()
    } else {
        let row = t.file(id);
        let above = match row.parent_id {
            Some(p) => names_upwards(t, p, (depth - 1) as nat),
            None => Seq::empty(),
        };
        seq![t.components[row.component_id - 1]] + above
    }
}

/// The path of a file.
pub open spec fn path_of(t: Tables, id: FileId) -> Seq<char> {
    joined(names_upwards(t, id, MAX_DEPTH as nat).reverse())
}

/// Reconstruct a path by walking parent links back to the root.
///
/// The walk is bounded rather than trusting the data: a cycle of parent links
/// would otherwise never end. A reference to nothing ends the path too, so
/// that what can be resolved is still shown.
pub fn resolve_path(store: &Store, file_id: FileId) -> (r: String)
    requires
        store.wf(),
    ensures
        r@ == path_of(store@, file_id),
{
    let mut names: Vec<String> = Vec::new();
    let mut current: Option<FileId> = Some(file_id);
    let mut left: usize = MAX_DEPTH;
    let ghost whole = names_upwards(store@, file_id, MAX_DEPTH as nat);
    assert(texts(names@) + names_upwards(store@, file_id, left as nat) =~= whole);
    while left > 0 && current.is_some()
        invariant
            store.wf(),
            left <= MAX_DEPTH,
            whole =~= texts(names@) + (match current {
                Some(id) => names_upwards(store@, id, left as nat),
                None => Seq::empty(),
            }),
        decreases left,
    {
        let id = current.unwrap();
        if store.has_file(id) {
            let row = store.file(id);
            let ghost before = texts(names@);
            assert(store@.has_component(store@.files[id - 1].component_id));
            let name = store.component_name(row.component_id).clone();
            names.push(name);
            current = row.parent_id;
            assert(texts(names@) =~= before.push(name@));
        } else {
            current = None;
        }
        left = left - 1;
    }
    assert(whole =~= texts(names@));
    let mut path = String::new();
    let mut k: usize = names.len();
    let ghost down = whole.reverse();
    assert(down.take(0) =~= Seq::<Seq<char>>::empty());
    while k > 0
        invariant
            0 <= k <= names.len(),
            whole =~= texts(names@),
            down == whole.reverse(),
            path@ == joined(down.take(names.len() - k)),
        decreases k,
    {
        k = k - 1;
        proof {
            let n = names.len() - k;
            assert(down.take(n).drop_last() =~= down.take(n - 1));
            assert(down.take(n).last() == names@[k as int]@);
        }
        path.push('/');
        path.append(names[k].as_str());
        assert(path@ =~= joined(down.take(names.len() - k)));
    }
    assert(down.take(names.len() as int) =~= down);
    path
}

// Laws.

/// Interning is a function: a name keeps its id whatever was interned before
/// it, and interning it again changes nothing.
pub proof fn interning_is_stable(t: Tables, name: Seq<char>)
    requires
        t.wf(),
        t.room_for(1),
    ensures
        intern(intern(t, name).0, name) == intern(t, name),
        intern(t, name).0.wf(),
{
    let (after, id) = intern(t, name);
    if !t.components.contains(name) {
        assert(after.components[t.components.len() as int] == name);
        assert(after.components.no_duplicates()) by {
            assert forall|i: int, j: int|
                0 <= i < after.components.len() && 0 <= j < after.components.len() && i
                    != j implies after.components[i] != after.components[j] by {
                if i == t.components.len() {
                    assert(t.components.contains(after.components[j]));
                }
                if j == t.components.len() {
                    assert(t.components.contains(after.components[i]));
                }
            }
        }
        lemma_index_of(after.components, name, t.components.len() as int);
        assert forall|i: int| 0 <= i < after.files.len() implies after.has_component(
            (#[trigger] after.files[i]).component_id,
        ) by {
            assert(t.has_component(t.files[i].component_id));
        }
        assert forall|i: int| 0 <= i < after.events.len() implies after.has_file(
            (#[trigger] after.events[i]).file_id,
        ) by {
            assert(t.has_file(t.events[i].file_id));
        }
    }
}

/// Two different names never share an id.
pub proof fn distinct_names_have_distinct_ids(t: Tables, a: Seq<char>, b: Seq<char>)
    requires
        t.wf(),
        t.room_for(2),
        a != b,
    ensures
        intern(t, a).1 != intern(intern(t, a).0, b).1,
{
    interning_is_stable(t, a);
    let (mid, id) = intern(t, a);
    assert(mid.components[id - 1] == a) by {
        if t.components.contains(a) {
            let k = choose|k: int| 0 <= k < t.components.len() && t.components[k] == a;
            lemma_index_of(t.components, a, k);
        }
    }
    if mid.components.contains(b) {
        let k = choose|k: int| 0 <= k < mid.components.len() && mid.components[k] == b;
        lemma_index_of(mid.components, b, k);
    }
}

/// Whether every row of `t` keeps its place and every component its name in
/// `u`, which may hold more of both.
pub open spec fn grows_to(t: Tables, u: Tables) -> bool {
    &&& t.components.len() <= u.components.len()
    &&& forall|i: int|
        0 <= i < t.components.len() ==> #[trigger] u.components[i] == t.components[i]
    &&& t.files.len() <= u.files.len()
    &&& forall|i: int|
        0 <= i < t.files.len() ==> at_place(
            #[trigger] u.files[i],
            t.files[i].parent_id,
            t.files[i].component_id,
        )
}

/// A live row is the one that stands for its place.
pub proof fn lemma_live_is_chosen(t: Tables, i: int)
    requires
        t.wf(),
        0 <= i < t.files.len(),
        t.files[i].deleted_at is None,
    ensures
        chosen(t.files, t.files[i].parent_id, t.files[i].component_id) == Some(i),
{
    let row = t.files[i];
    assert forall|j: int|
        0 <= j < t.files.len() && j != i && at_place(
            #[trigger] t.files[j],
            row.parent_id,
            row.component_id,
        ) implies preferred(t.files, i, j) by {
        if t.files[j].deleted_at is None {
            if i < j {
                assert(!(t.files[i].parent_id == t.files[j].parent_id && t.files[i].component_id
                    == t.files[j].component_id));
            } else {
                assert(!(t.files[j].parent_id == t.files[i].parent_id && t.files[j].component_id
                    == t.files[i].component_id));
            }
        }
    }
    assert(is_chosen(t.files, row.parent_id, row.component_id, i));
    lemma_chosen_unique(t.files, row.parent_id, row.component_id, i);
}

/// Where some row stands at a place, one is chosen for it.
pub proof fn lemma_some_chosen(
    files: Seq<FileRow>,
    parent: Option<FileId>,
    component: ComponentId,
    j: int,
)
    requires
        0 <= j < files.len(),
        at_place(files[j], parent, component),
    ensures
        chosen(files, parent, component) matches Some(i) && is_chosen(
            files,
            parent,
            component,
            i,
        ),
{
    let best = lemma_best_of(files, parent, component, j, files.len() as int);
    assert(is_chosen(files, parent, component, best));
    lemma_chosen_unique(files, parent, component, best);
}

/// The best of the first `n` rows of a place.
proof fn lemma_best_of(
    files: Seq<FileRow>,
    parent: Option<FileId>,
    component: ComponentId,
    j: int,
    n: int,
) -> (best: int)
    requires
        0 <= j < files.len(),
        j < n <= files.len() || n == 0,
        at_place(files[j], parent, component),
    ensures
        0 <= best < files.len(),
        at_place(files[best], parent, component),
        forall|k: int|
            0 <= k < n && k != best && at_place(#[trigger] files[k], parent, component)
                ==> preferred(files, best, k),
    decreases n,
{
    if n == 0 {
        j
    } else {
        let m = n - 1;
        let b = if j < m {
            lemma_best_of(files, parent, component, j, m)
        } else {
            // j is the last of the first n rows: look for another one before it
            if exists|k: int| 0 <= k < m && at_place(#[trigger] files[k], parent, component) {
                let k = choose|k: int|
                    0 <= k < m && at_place(#[trigger] files[k], parent, component);
                lemma_best_of(files, parent, component, k, m)
            } else {
                j
            }
        };
        if at_place(files[m], parent, component) && b != m && preferred(files, m, b) {
            m
        } else {
            b
        }
    }
}

/// Observing an entry leaves the tables well formed, with every row and every
/// name in its place, and the observed entry live with what was observed.
pub proof fn lemma_upsert(
    t: Tables,
    parent: Option<FileId>,
    component: ComponentId,
    is_dir: bool,
    size_bytes: Option<i64>,
    mtime_unix: Option<i64>,
)
    requires
        t.wf(),
        t.files.len() < i64::MAX,
        t.has_component(component),
    ensures
        ({
            let (u, id) = upsert(t, parent, component, is_dir, size_bytes, mtime_unix);
            &&& u.wf()
            &&& grows_to(t, u)
            &&& u.has_file(id)
            &&& u.file(id).size_bytes == size_bytes
            &&& u.file(id).mtime_unix == mtime_unix
            &&& u.file(id).deleted_at is None
            &&& at_place(u.file(id), parent, component)
            &&& u.components == t.components
            &&& u.events == t.events
            &&& u.files.len() <= t.files.len() + 1
            &&& forall|i: int|
                0 <= i < t.files.len() && i != id - 1 ==> #[trigger] u.files[i] == t.files[i]
        }),
{
    let (u, id) = upsert(t, parent, component, is_dir, size_bytes, mtime_unix);
    match chosen(t.files, parent, component) {
        Some(i) => {
            assert(is_chosen(t.files, parent, component, i));
            assert forall|k: int, l: int|
                0 <= k < l < u.files.len() && (#[trigger] u.files[k]).deleted_at is None && (
                #[trigger] u.files[l]).deleted_at is None implies !(u.files[k].parent_id
                == u.files[l].parent_id && u.files[k].component_id == u.files[l].component_id) by {
                if k == i && at_place(t.files[l], parent, component) {
                    assert(preferred(t.files, i, l));
                }
                if l == i && at_place(t.files[k], parent, component) {
                    assert(preferred(t.files, i, k));
                }
                if k != i && l != i {
                    assert(t.files[k].deleted_at is None && t.files[l].deleted_at is None);
                }
            }
            assert forall|k: int| 0 <= k < u.files.len() implies u.has_component(
                (#[trigger] u.files[k]).component_id,
            ) by {
                assert(t.has_component(t.files[k].component_id));
            }
        },
        None => {
            assert forall|k: int|
                0 <= k < t.files.len() implies !at_place(#[trigger] t.files[k], parent, component) by {
                if at_place(t.files[k], parent, component) {
                    lemma_some_chosen(t.files, parent, component, k);
                }
            }
            assert forall|k: int| 0 <= k < u.files.len() implies u.has_component(
                (#[trigger] u.files[k]).component_id,
            ) by {
                if k < t.files.len() {
                    assert(t.has_component(t.files[k].component_id));
                }
            }
            assert forall|k: int, l: int|
                0 <= k < l < u.files.len() && (#[trigger] u.files[k]).deleted_at is None && (
                #[trigger] u.files[l]).deleted_at is None implies !(u.files[k].parent_id
                == u.files[l].parent_id && u.files[k].component_id == u.files[l].component_id) by {
                if l < t.files.len() {
                    assert(t.files[k].deleted_at is None && t.files[l].deleted_at is None);
                } else {
                    assert(!at_place(t.files[k], parent, component));
                }
            }
        },
    }
    assert forall|k: int| 0 <= k < u.events.len() implies u.has_file(
        (#[trigger] u.events[k]).file_id,
    ) by {
        assert(t.has_file(t.events[k].file_id));
    }
}

/// Whether the rows from `id` upwards carry exactly `names`, outermost first,
/// ending at a root, and are live directories without size or time.
pub open spec fn is_dir_chain(t: Tables, id: FileId, names: Seq<Seq<char>>) -> bool
    decreases names.len(),
{
    &&& names.len() > 0
    &&& t.has_file(id)
    &&& t.has_component(t.file(id).component_id)
    &&& t.components[t.file(id).component_id - 1] == names.last()
    &&& t.file(id).deleted_at is None
    &&& t.file(id).size_bytes is None
    &&& t.file(id).mtime_unix is None
    &&& match t.file(id).parent_id {
        None => names.len() == 1,
        Some(p) => names.len() > 1 && is_dir_chain(t, p, names.drop_last()),
    }
}

/// A chain stays a chain while the tables grow and no row of it changes
/// otherwise than to a live row without size or time.
proof fn lemma_chain_stays(t: Tables, u: Tables, id: FileId, names: Seq<Seq<char>>)
    requires
        is_dir_chain(t, id, names),
        grows_to(t, u),
        forall|i: int|
            0 <= i < t.files.len() ==> (#[trigger] u.files[i]) == t.files[i] || (
            u.files[i].deleted_at is None && u.files[i].size_bytes is None
                && u.files[i].mtime_unix is None),
    ensures
        is_dir_chain(u, id, names),
    decreases names.len(),
{
    assert(u.files[id - 1] == t.files[id - 1] || (u.files[id - 1].deleted_at is None
        && u.files[id - 1].size_bytes is None && u.files[id - 1].mtime_unix is None));
    assert(at_place(u.files[id - 1], t.file(id).parent_id, t.file(id).component_id));
    assert(u.components[t.file(id).component_id - 1] == t.components[t.file(id).component_id - 1]);
    if let Some(p) = t.file(id).parent_id {
        lemma_chain_stays(t, u, p, names.drop_last());
    }
}

/// What observing a chain of directories leaves behind.
pub proof fn lemma_dir_chain(t: Tables, names: Seq<Seq<char>>)
    requires
        t.wf(),
        t.room_for(names.len()),
    ensures
        ({
            let (u, id) = dir_chain(t, None, names);
            &&& u.wf()
            &&& grows_to(t, u)
            &&& u.components.len() <= t.components.len() + names.len()
            &&& u.files.len() <= t.files.len() + names.len()
            &&& u.events == t.events
            &&& names.len() == 0 ==> u == t && id is None
            &&& names.len() > 0 ==> id is Some && is_dir_chain(u, id->0, names)
        }),
    decreases names.len(),
{
    if names.len() > 0 {
        let shorter = names.drop_last();
        lemma_dir_chain(t, shorter);
        let (before, parent) = dir_chain(t, None, shorter);
        interning_is_stable(before, names.last());
        let (interned, component) = intern(before, names.last());
        assert(interned.has_component(component) && interned.components[component - 1]
            == names.last()) by {
            if before.components.contains(names.last()) {
                let k = choose|k: int|
                    0 <= k < before.components.len() && before.components[k] == names.last();
                lemma_index_of(before.components, names.last(), k);
            }
        }
        lemma_upsert(interned, parent, component, true, None, None);
        let (after, id) = upsert(interned, parent, component, true, None, None);
        assert(grows_to(before, after));
        if shorter.len() > 0 {
            lemma_chain_stays(before, after, parent->0, shorter);
        }
    }
}

/// The names upwards from the end of a chain are the chain's names.
proof fn lemma_chain_names(t: Tables, id: FileId, names: Seq<Seq<char>>, depth: nat)
    requires
        is_dir_chain(t, id, names),
    ensures
        names.len() <= depth ==> names_upwards(t, id, depth) == names.reverse(),
        names.len() > depth ==> names_upwards(t, id, depth) == names.skip(
            names.len() - depth,
        ).reverse(),
    decreases names.len(),
{
    if depth > 0 {
        let shorter = names.drop_last();
        match t.file(id).parent_id {
            None => {
                assert(names_upwards(t, id, depth) =~= names.reverse());
            },
            Some(p) => {
                lemma_chain_names(t, p, shorter, (depth - 1) as nat);
                if names.len() <= depth {
                    assert(names_upwards(t, id, depth) =~= names.reverse());
                } else {
                    assert(names_upwards(t, id, depth) =~= names.skip(
                        names.len() - depth,
                    ).reverse());
                }
            },
        }
    } else {
        assert(names.skip(names.len() as int).reverse() =~= Seq::<Seq<char>>::empty());
    }
}

/// A directory chain resolves back to the path it was made from; of a path
/// deeper than the resolver follows, the innermost part is given.
pub proof fn dir_chain_resolves_to_its_path(t: Tables, names: Seq<Seq<char>>)
    requires
        t.wf(),
        t.room_for(names.len()),
        names.len() > 0,
    ensures
        ({
            let (u, id) = dir_chain(t, None, names);
            &&& id is Some
            &&& names.len() <= MAX_DEPTH ==> path_of(u, id->0) == joined(names)
            &&& names.len() > MAX_DEPTH ==> path_of(u, id->0) == joined(
                names.skip(names.len() - MAX_DEPTH),
            )
        }),
{
    lemma_dir_chain(t, names);
    let (u, id) = dir_chain(t, None, names);
    lemma_chain_names(u, id->0, names, MAX_DEPTH as nat);
    assert(names.reverse().reverse() =~= names);
    let tail = names.skip(names.len() - MAX_DEPTH);
    assert(tail.reverse().reverse() =~= tail);
}

/// Observing a chain that is there changes nothing and gives its end.
proof fn lemma_chain_again(t: Tables, id: FileId, names: Seq<Seq<char>>)
    requires
        t.wf(),
        is_dir_chain(t, id, names),
    ensures
        dir_chain(t, None, names) == (t, Some(id)),
    decreases names.len(),
{
    let shorter = names.drop_last();
    let parent = t.file(id).parent_id;
    if let Some(p) = parent {
        lemma_chain_again(t, p, shorter);
    }
    assert(dir_chain(t, None, shorter) == (t, parent));
    let component = t.file(id).component_id;
    lemma_index_of(t.components, names.last(), component - 1);
    assert(intern(t, names.last()) == (t, component));
    lemma_live_is_chosen(t, id - 1);
    assert(t.set_file(id, t.file(id)) =~= t);
}

/// Observing the same directory chain again adds no row, changes no row and
/// gives the same id.
pub proof fn rescanning_a_chain_is_idempotent(t: Tables, names: Seq<Seq<char>>)
    requires
        t.wf(),
        t.room_for(names.len()),
    ensures
        dir_chain(dir_chain(t, None, names).0, None, names) == dir_chain(t, None, names),
{
    lemma_dir_chain(t, names);
    if names.len() > 0 {
        let (u, id) = dir_chain(t, None, names);
        lemma_chain_again(u, id->0, names);
    }
}

/// The names upwards from the end of a chain stay the chain's names while the
/// tables grow.
proof fn lemma_chain_names_stay(
    t: Tables,
    u: Tables,
    id: FileId,
    names: Seq<Seq<char>>,
    depth: nat,
)
    requires
        is_dir_chain(t, id, names),
        grows_to(t, u),
        names.len() <= depth,
    ensures
        names_upwards(u, id, depth) == names.reverse(),
    decreases names.len(),
{
    assert(at_place(u.files[id - 1], t.file(id).parent_id, t.file(id).component_id));
    assert(u.components[t.file(id).component_id - 1] == names.last());
    if let Some(p) = t.file(id).parent_id {
        lemma_chain_names_stay(t, u, p, names.drop_last(), (depth - 1) as nat);
    }
    assert(names_upwards(u, id, depth) =~= names.reverse());
}

/// Two different directories never share an id.
pub proof fn distinct_paths_have_distinct_ids(t: Tables, a: Seq<Seq<char>>, b: Seq<Seq<char>>)
    requires
        t.wf(),
        t.room_for(a.len() + b.len()),
        a.len() > 0,
        b.len() > 0,
        a != b,
    ensures
        dir_chain(t, None, a).1 != dir_chain(dir_chain(t, None, a).0, None, b).1,
{
    lemma_dir_chain(t, a);
    let (u, first) = dir_chain(t, None, a);
    lemma_dir_chain(u, b);
    let (v, second) = dir_chain(u, None, b);
    let depth = a.len() + b.len();
    lemma_chain_names_stay(u, v, first->0, a, depth);
    lemma_chain_names_stay(v, v, second->0, b, depth);
    if first == second {
        assert(a.reverse().reverse() =~= a);
        assert(b.reverse().reverse() =~= b);
    }
}

/// An entry that is observed is as it was seen, at its place: with that size and time, and
/// there. Where a row stands for the place already, it is that row, which stays a file or a
/// directory; otherwise it is a new one behind all others. No other row changes.
pub proof fn an_entry_is_as_it_was_seen(
    t: Tables,
    parent: Option<FileId>,
    component: ComponentId,
    is_dir: bool,
    size_bytes: Option<i64>,
    mtime_unix: Option<i64>,
)
    requires
        t.wf(),
        t.files.len() < i64::MAX,
    ensures
        ({
            let (u, id) = upsert(t, parent, component, is_dir, size_bytes, mtime_unix);
            let row = u.file(id);
            &&& u.has_file(id)
            &&& row.parent_id == parent
            &&& row.component_id == component
            &&& row.size_bytes == size_bytes
            &&& row.mtime_unix == mtime_unix
            &&& row.deleted_at is None
            &&& t.has_file(id) ==> row.is_dir == t.file(id).is_dir && t.file(id).parent_id == parent
                && t.file(id).component_id == component
            &&& !t.has_file(id) ==> row.is_dir == is_dir && id == t.files.len() + 1 && forall|
                x: FileId,
            |
                t.has_file(x) ==> !((#[trigger] t.file(x)).parent_id == parent && t.file(
                    x,
                ).component_id == component)
            &&& forall|x: FileId| t.has_file(x) && x != id ==> #[trigger] u.file(x) == t.file(x)
        }),
{
    match chosen(t.files, parent, component) {
        Some(i) => {
            assert(is_chosen(t.files, parent, component, i));
        },
        None => {
            assert forall|x: FileId| t.has_file(x) implies !((#[trigger] t.file(x)).parent_id
                == parent && t.file(x).component_id == component) by {
                if at_place(t.files[x - 1], parent, component) {
                    lemma_some_chosen(t.files, parent, component, x - 1);
                }
            }
        },
    }
}

/// The live row stands for its place. Where there is none, the one that went away last
/// does; and where any row was ever there, one does.
pub proof fn a_place_is_stood_for_by_what_was_there_last(
    t: Tables,
    parent: Option<FileId>,
    component: ComponentId,
    j: int,
)
    requires
        t.wf(),
        0 <= j < t.files.len(),
        t.files[j].parent_id == parent,
        t.files[j].component_id == component,
    ensures
        chosen(t.files, parent, component) matches Some(i) && {
            &&& 0 <= i < t.files.len()
            &&& t.files[i].parent_id == parent
            &&& t.files[i].component_id == component
            &&& t.files[j].deleted_at is None ==> i == j
            &&& t.files[i].deleted_at is Some ==> t.files[j].deleted_at is Some
                && t.files[j].deleted_at->0 <= t.files[i].deleted_at->0
        },
{
    assert(at_place(t.files[j], parent, component));
    lemma_some_chosen(t.files, parent, component, j);
    if t.files[j].deleted_at is None {
        lemma_live_is_chosen(t, j);
    }
}

} // verus!
