//! Why scanning an unchanged tree again records nothing.
//!
//! A walk that yields the same entries with the same metadata as before finds
//! every file where it left it, so no entry counts as a change. What has to
//! hold of the walk is what holds of every file system: no two entries share a
//! path, and nothing lies below a file.
use vstd::prelude::*;

use crate::events::{with_events, EventKind, NewEvent};
use crate::fspath::{components_of, dirs_below, parts_of};
use crate::paths::{
    at_place, dir_chain, grows_to, intern, interning_is_stable, is_dir_chain, lemma_dir_chain,
    lemma_index_of, lemma_live_is_chosen, lemma_upsert, upsert,
};
use crate::scan::{
    entry_event, entry_name, fresh_scan, limit_reached, live_row, observe, recorded_size, scan_step,
    scan_steps, step_room, told, walk_room, ScanOptions, ScanState, Stat, Walked,
};
use crate::store::{FileId, FileRow, Tables};

verus! {

/// Whether live rows named `names`, from a root down, end at file `id`.
pub open spec fn leads_to(t: Tables, names: Seq<Seq<char>>, id: FileId) -> bool
    decreases names.len(),
{
    &&& names.len() > 0
    &&& t.has_file(id)
    &&& t.has_component(t.file(id).component_id)
    &&& t.components[t.file(id).component_id - 1] == names.last()
    &&& t.file(id).deleted_at is None
    &&& match t.file(id).parent_id {
        None => names.len() == 1,
        Some(p) => names.len() > 1 && leads_to(t, names.drop_last(), p),
    }
}

/// Names lead to one file only.
pub(crate) proof fn lemma_leads_to_one(t: Tables, names: Seq<Seq<char>>, a: FileId, b: FileId)
    requires
        t.wf(),
        leads_to(t, names, a),
        leads_to(t, names, b),
    ensures
        a == b,
    decreases names.len(),
{
    let ra = t.file(a);
    let rb = t.file(b);
    lemma_index_of(t.components, names.last(), ra.component_id - 1);
    lemma_index_of(t.components, names.last(), rb.component_id - 1);
    if names.len() > 1 {
        lemma_leads_to_one(t, names.drop_last(), ra.parent_id->0, rb.parent_id->0);
    }
    assert(ra.parent_id == rb.parent_id);
    if a < b {
        assert(!(t.files[a - 1].parent_id == t.files[b - 1].parent_id && t.files[a
            - 1].component_id == t.files[b - 1].component_id));
    } else if b < a {
        assert(!(t.files[b - 1].parent_id == t.files[a - 1].parent_id && t.files[b
            - 1].component_id == t.files[a - 1].component_id));
    }
}

/// A file is led to by one sequence of names only.
pub proof fn lemma_led_by_one(t: Tables, m: Seq<Seq<char>>, n: Seq<Seq<char>>, id: FileId)
    requires
        leads_to(t, m, id),
        leads_to(t, n, id),
    ensures
        m == n,
    decreases m.len(),
{
    match t.file(id).parent_id {
        None => {
            assert(m =~= n);
        },
        Some(p) => {
            lemma_led_by_one(t, m.drop_last(), n.drop_last(), p);
            assert(m =~= m.drop_last().push(m.last()));
            assert(n =~= n.drop_last().push(n.last()));
        },
    }
}

/// Whether every row of `t` keeps its place and its life in `u`.
pub open spec fn keeps_alive(t: Tables, u: Tables) -> bool {
    &&& grows_to(t, u)
    &&& forall|i: int|
        0 <= i < t.files.len() && t.files[i].deleted_at is None ==> (
        #[trigger] u.files[i]).deleted_at is None
}

pub(crate) proof fn lemma_leads_to_stays(t: Tables, u: Tables, names: Seq<Seq<char>>, id: FileId)
    requires
        keeps_alive(t, u),
        leads_to(t, names, id),
    ensures
        leads_to(u, names, id),
    decreases names.len(),
{
    assert(at_place(u.files[id - 1], t.file(id).parent_id, t.file(id).component_id));
    assert(u.files[id - 1].deleted_at is None);
    assert(u.components[t.file(id).component_id - 1] == t.components[t.file(id).component_id - 1]);
    if let Some(p) = t.file(id).parent_id {
        lemma_leads_to_stays(t, u, names.drop_last(), p);
    }
}

/// Whether `top` is where `base` leads; no names lead to the top of the tree.
pub open spec fn stands(t: Tables, base: Seq<Seq<char>>, top: Option<FileId>) -> bool {
    match top {
        None => base.len() == 0,
        Some(id) => leads_to(t, base, id),
    }
}

/// Whether row `x` of `u` is new or other than it was in `t`.
pub open spec fn touched(t: Tables, u: Tables, x: FileId) -> bool {
    u.has_file(x) && (t.has_file(x) ==> u.file(x) != t.file(x))
}

/// What observing directories below a known one leaves behind: rows are touched
/// only where the observed names lead.
pub(crate) proof fn lemma_dirs_below(
    t: Tables,
    base: Seq<Seq<char>>,
    top: Option<FileId>,
    dirs: Seq<Seq<char>>,
)
    requires
        t.wf(),
        t.room_for(dirs.len()),
        stands(t, base, top),
    ensures
        ({
            let (u, id) = dir_chain(t, top, dirs);
            &&& u.wf()
            &&& keeps_alive(t, u)
            &&& u.components.len() <= t.components.len() + dirs.len()
            &&& u.files.len() <= t.files.len() + dirs.len()
            &&& u.events == t.events
            &&& stands(u, base + dirs, id)
            &&& forall|x: FileId| #[trigger]
                touched(t, u, x) ==> exists|k: int|
                    0 < k <= dirs.len() && #[trigger] leads_to(u, base + dirs.take(k), x)
        }),
    decreases dirs.len(),
{
    if dirs.len() == 0 {
        assert(base + dirs =~= base);
    } else {
        let shorter = dirs.drop_last();
        lemma_dirs_below(t, base, top, shorter);
        let (before, parent) = dir_chain(t, top, shorter);
        let (after, id) = lemma_entry_below(
            before,
            base + shorter,
            parent,
            dirs.last(),
            true,
            None,
            None,
        );
        assert((after, Some(id)) == dir_chain(t, top, dirs));
        assert((base + shorter).push(dirs.last()) =~= base + dirs);
        assert(dirs.take(dirs.len() as int) =~= dirs);
        assert forall|i: int|
            0 <= i < t.files.len() && t.files[i].deleted_at is None implies (
        #[trigger] after.files[i]).deleted_at is None by {
            assert(before.files[i].deleted_at is None);
        }
        assert forall|x: FileId| #[trigger] touched(t, after, x) implies exists|k: int|
            0 < k <= dirs.len() && #[trigger] leads_to(after, base + dirs.take(k), x) by {
            if x == id {
                assert(leads_to(after, base + dirs.take(dirs.len() as int), x));
            } else {
                assert(before.has_file(x));
                assert(after.file(x) == before.file(x)) by {
                    assert(after.files[x - 1] == before.files[x - 1]);
                }
                assert(touched(t, before, x));
                let k = choose|k: int|
                    0 < k <= shorter.len() && #[trigger] leads_to(before, base + shorter.take(k), x);
                assert(shorter.take(k) =~= dirs.take(k));
                lemma_leads_to_stays(before, after, base + dirs.take(k), x);
                assert(leads_to(after, base + dirs.take(k), x));
            }
        }
    }
}

/// Observing one entry below a known directory.
proof fn lemma_entry_below(
    t: Tables,
    base: Seq<Seq<char>>,
    parent: Option<FileId>,
    name: Seq<char>,
    is_dir: bool,
    size_bytes: Option<i64>,
    mtime_unix: Option<i64>,
) -> (r: (Tables, FileId))
    requires
        t.wf(),
        t.room_for(1),
        stands(t, base, parent),
    ensures
        ({
            let (interned, component) = intern(t, name);
            r == upsert(interned, parent, component, is_dir, size_bytes, mtime_unix)
        }),
        r.0.wf(),
        keeps_alive(t, r.0),
        r.0.components.len() <= t.components.len() + 1,
        r.0.files.len() <= t.files.len() + 1,
        r.0.events == t.events,
        leads_to(r.0, base.push(name), r.1),
        r.0.file(r.1).size_bytes == size_bytes,
        r.0.file(r.1).mtime_unix == mtime_unix,
        forall|i: int| 0 <= i < t.files.len() && i != r.1 - 1 ==> #[trigger] r.0.files[i] == t.files[i],
        r.0.files.len() > t.files.len() ==> r.1 == r.0.files.len(),
{
    interning_is_stable(t, name);
    let (interned, component) = intern(t, name);
    assert(interned.has_component(component) && interned.components[component - 1] == name) by {
        if t.components.contains(name) {
            let k = choose|k: int| 0 <= k < t.components.len() && t.components[k] == name;
            lemma_index_of(t.components, name, k);
        }
    }
    lemma_upsert(interned, parent, component, is_dir, size_bytes, mtime_unix);
    let (after, id) = upsert(interned, parent, component, is_dir, size_bytes, mtime_unix);
    assert(keeps_alive(t, after)) by {
        assert forall|i: int|
            0 <= i < t.files.len() && t.files[i].deleted_at is None implies (
        #[trigger] after.files[i]).deleted_at is None by {
            if i != id - 1 {
                assert(after.files[i] == interned.files[i]);
            }
        }
    }
    if let Some(p) = parent {
        lemma_leads_to_stays(t, after, base, p);
    }
    assert(base.push(name).drop_last() =~= base);
    assert(leads_to(after, base.push(name), id));
    (after, id)
}

/// What observing an entry leaves behind.
pub(crate) proof fn lemma_observe(
    t: Tables,
    base: Seq<Seq<char>>,
    root_id: FileId,
    dirs: Seq<Seq<char>>,
    name: Seq<char>,
    stat: Stat,
)
    requires
        t.wf(),
        t.room_for(dirs.len() + 1),
        leads_to(t, base, root_id),
    ensures
        ({
            let (u, id, kind) = observe(t, root_id, dirs, name, stat);
            &&& u.wf()
            &&& keeps_alive(t, u)
            &&& u.components.len() <= t.components.len() + dirs.len() + 1
            &&& u.files.len() <= t.files.len() + dirs.len() + 1
            &&& u.events == t.events
            &&& u.has_file(id)
            &&& leads_to(u, base + dirs.push(name), id)
            &&& u.file(id).size_bytes == recorded_size(stat)
            &&& u.file(id).mtime_unix == stat.mtime_unix
            &&& forall|x: FileId| #[trigger]
                touched(t, u, x) ==> exists|k: int|
                    0 < k <= dirs.len() + 1 && #[trigger] leads_to(
                        u,
                        base + dirs.push(name).take(k),
                        x,
                    )
        }),
{
    lemma_dirs_below(t, base, Some(root_id), dirs);
    let (above, parent) = dir_chain(t, Some(root_id), dirs);
    let (u, id) = lemma_entry_below(
        above,
        base + dirs,
        parent,
        name,
        stat.is_dir,
        recorded_size(stat),
        stat.mtime_unix,
    );
    let whole = dirs.push(name);
    assert((base + dirs).push(name) =~= base + whole);
    assert(u == observe(t, root_id, dirs, name, stat).0);
    assert(id == observe(t, root_id, dirs, name, stat).1);
    assert forall|i: int| 0 <= i < t.files.len() && t.files[i].deleted_at is None implies (
    #[trigger] u.files[i]).deleted_at is None by {
        assert(above.files[i].deleted_at is None);
    }
    assert forall|x: FileId| #[trigger] touched(t, u, x) implies exists|k: int|
        0 < k <= dirs.len() + 1 && #[trigger] leads_to(u, base + whole.take(k), x) by {
        if x == id {
            assert(whole.take(whole.len() as int) =~= whole);
            assert(leads_to(u, base + whole.take(whole.len() as int), x));
        } else {
            assert(above.has_file(x));
            assert(u.file(x) == above.file(x)) by {
                assert(u.files[x - 1] == above.files[x - 1]);
            }
            assert(touched(t, above, x));
            let k = choose|k: int|
                0 < k <= dirs.len() && #[trigger] leads_to(above, base + dirs.take(k), x);
            assert(dirs.take(k) =~= whole.take(k));
            lemma_leads_to_stays(above, u, base + whole.take(k), x);
            assert(leads_to(u, base + whole.take(k), x));
        }
    }
}

/// Whether names lead to any file.
pub open spec fn is_led(t: Tables, names: Seq<Seq<char>>) -> bool {
    exists|id: FileId| leads_to(t, names, id)
}

/// Observing an entry that is there finds its row and adds none.
pub(crate) proof fn lemma_entry_again(
    t: Tables,
    base: Seq<Seq<char>>,
    parent: Option<FileId>,
    name: Seq<char>,
    is_dir: bool,
    size_bytes: Option<i64>,
    mtime_unix: Option<i64>,
    id: FileId,
)
    requires
        t.wf(),
        stands(t, base, parent),
        leads_to(t, base.push(name), id),
    ensures
        ({
            let (interned, component) = intern(t, name);
            let (after, found) = upsert(
                interned,
                parent,
                component,
                is_dir,
                size_bytes,
                mtime_unix,
            );
            &&& (interned, component) == (t, t.file(id).component_id)
            &&& found == id
            &&& live_row(t, parent, component) == Some(t.file(id))
            &&& after.components == t.components
            &&& after.files.len() == t.files.len()
        }),
{
    let row = t.file(id);
    assert(base.push(name).drop_last() =~= base);
    if base.len() > 0 {
        lemma_leads_to_one(t, base, row.parent_id->0, parent->0);
    }
    assert(row.parent_id == parent);
    lemma_index_of(t.components, name, row.component_id - 1);
    assert(intern(t, name) == (t, row.component_id));
    lemma_live_is_chosen(t, id - 1);
}

/// Observing directories that are there finds their rows and adds none.
pub(crate) proof fn lemma_dirs_again(
    t: Tables,
    base: Seq<Seq<char>>,
    top: Option<FileId>,
    dirs: Seq<Seq<char>>,
    id: FileId,
)
    requires
        t.wf(),
        t.room_for(dirs.len()),
        stands(t, base, top),
        leads_to(t, base + dirs, id),
    ensures
        ({
            let (u, found) = dir_chain(t, top, dirs);
            &&& found == Some(id)
            &&& u.components == t.components
            &&& u.files.len() == t.files.len()
        }),
    decreases dirs.len(),
{
    if dirs.len() == 0 {
        assert(base + dirs =~= base);
        lemma_leads_to_one(t, base, top->0, id);
    } else {
        let shorter = dirs.drop_last();
        assert((base + dirs).drop_last() =~= base + shorter);
        lemma_dirs_below(t, base, top, shorter);
        let (before, parent) = dir_chain(t, top, shorter);
        if (base + shorter).len() > 0 {
            lemma_dirs_again(t, base, top, shorter, t.file(id).parent_id->0);
        } else {
            assert(shorter =~= Seq::<Seq<char>>::empty());
        }
        assert((base + shorter).push(dirs.last()) =~= base + dirs);
        lemma_leads_to_stays(t, before, base + dirs, id);
        lemma_entry_again(before, base + shorter, parent, dirs.last(), true, None, None, id);
    }
}

/// Observing an entry below a root that is there finds its row and adds none.
pub(crate) proof fn lemma_observe_again(
    t: Tables,
    base: Seq<Seq<char>>,
    root_id: FileId,
    dirs: Seq<Seq<char>>,
    name: Seq<char>,
    stat: Stat,
    id: FileId,
)
    requires
        t.wf(),
        t.room_for(dirs.len() + 1),
        leads_to(t, base, root_id),
        leads_to(t, base + dirs.push(name), id),
    ensures
        ({
            let (u, found, kind) = observe(t, root_id, dirs, name, stat);
            &&& found == id
            &&& u.components == t.components
            &&& u.files.len() == t.files.len()
        }),
{
    lemma_dirs_below(t, base, Some(root_id), dirs);
    let (above, parent) = dir_chain(t, Some(root_id), dirs);
    let whole = base + dirs.push(name);
    assert(whole.drop_last() =~= base + dirs);
    assert((base + dirs).push(name) =~= whole);
    lemma_dirs_again(t, base, Some(root_id), dirs, t.file(id).parent_id->0);
    lemma_leads_to_stays(t, above, whole, id);
    lemma_entry_again(
        above,
        base + dirs,
        parent,
        name,
        stat.is_dir,
        recorded_size(stat),
        stat.mtime_unix,
        id,
    );
}

/// Whether a file stands in the tables just as it was observed.
pub open spec fn settled(
    t: Tables,
    base: Seq<Seq<char>>,
    whole: Seq<Seq<char>>,
    stat: Stat,
) -> bool {
    exists|id: FileId| #[trigger]
        leads_to(t, base + whole, id) && t.file(id).size_bytes == recorded_size(stat) && t.file(
            id,
        ).mtime_unix == stat.mtime_unix
}

/// Observing another entry, that does not lie at or below the file, leaves a
/// settled file settled.
proof fn lemma_stays_settled(
    t: Tables,
    base: Seq<Seq<char>>,
    root_id: FileId,
    whole: Seq<Seq<char>>,
    file: Stat,
    dirs: Seq<Seq<char>>,
    name: Seq<char>,
    stat: Stat,
)
    requires
        t.wf(),
        t.room_for(dirs.len() + 1),
        leads_to(t, base, root_id),
        settled(t, base, whole, file),
        whole.len() > 0,
        !whole.is_prefix_of(dirs.push(name)),
    ensures
        settled(observe(t, root_id, dirs, name, stat).0, base, whole, file),
{
    lemma_observe(t, base, root_id, dirs, name, stat);
    let u = observe(t, root_id, dirs, name, stat).0;
    let id = choose|id: FileId| #[trigger]
        leads_to(t, base + whole, id) && t.file(id).size_bytes == recorded_size(file) && t.file(
            id,
        ).mtime_unix == file.mtime_unix;
    lemma_leads_to_stays(t, u, base + whole, id);
    if touched(t, u, id) {
        let other = dirs.push(name);
        let k = choose|k: int|
            0 < k <= dirs.len() + 1 && #[trigger] leads_to(u, base + other.take(k), id);
        lemma_led_by_one(u, base + whole, base + other.take(k), id);
        assert(whole =~= (base + whole).skip(base.len() as int));
        assert(other.take(k) =~= (base + other.take(k)).skip(base.len() as int));
        assert(whole =~= other.subrange(0, whole.len() as int));
        assert(false);
    }
    assert(leads_to(u, base + whole, id));
}

/// Observing a settled file again tells whether it is as it was.
pub(crate) proof fn lemma_settled_kind(
    t: Tables,
    base: Seq<Seq<char>>,
    root_id: FileId,
    dirs: Seq<Seq<char>>,
    name: Seq<char>,
    seen: Stat,
    stat: Stat,
)
    requires
        t.wf(),
        t.room_for(dirs.len() + 1),
        leads_to(t, base, root_id),
        settled(t, base, dirs.push(name), seen),
        !stat.is_dir,
    ensures
        observe(t, root_id, dirs, name, stat).2 == if recorded_size(stat) == recorded_size(seen)
            && stat.mtime_unix == seen.mtime_unix {
            None
        } else {
            Some(EventKind::Modified)
        },
{
    lemma_dirs_below(t, base, Some(root_id), dirs);
    let whole = dirs.push(name);
    let (above, parent) = dir_chain(t, Some(root_id), dirs);
    let id = choose|id: FileId| #[trigger]
        leads_to(t, base + whole, id) && t.file(id).size_bytes == recorded_size(seen) && t.file(
            id,
        ).mtime_unix == seen.mtime_unix;
    lemma_leads_to_stays(t, above, base + whole, id);
    assert((base + whole).drop_last() =~= base + dirs);
    // the directories above it are where the file says they are
    let row = above.file(id);
    assert(base.len() > 0);
    lemma_leads_to_one(above, base + dirs, row.parent_id->0, parent->0);
    // its own row was not touched on the way
    if touched(t, above, id) {
        let k = choose|k: int|
            0 < k <= dirs.len() && #[trigger] leads_to(above, base + dirs.take(k), id);
        lemma_led_by_one(above, base + whole, base + dirs.take(k), id);
        assert((base + whole).len() == (base + dirs.take(k)).len());
        assert(false);
    }
    lemma_index_of(above.components, name, row.component_id - 1);
    assert(intern(above, name) == (above, row.component_id));
    lemma_live_is_chosen(above, id - 1);
    assert(live_row(above, parent, row.component_id) == Some(row));
}

// Whole walks.

/// Whether a step of a walk is an entry that is recorded.
pub open spec fn is_recorded(item: Walked) -> bool {
    item matches Walked::Entry { path, depth, is_dir, stat } && depth > 0 && stat is Some
}

/// The names of a recorded entry below the root.
pub open spec fn names_below(root: Seq<char>, item: Walked) -> Seq<Seq<char>> {
    match item {
        Walked::Entry { path, .. } => dirs_below(root, path@).push(entry_name(path@)),
        Walked::Unreadable => Seq::empty(),
    }
}

/// The metadata of a recorded entry.
pub open spec fn stat_of(item: Walked) -> Stat {
    item->stat->0
}

/// What holds of a walk over any file system: no entry lies at or below a file
/// that is another entry.
pub open spec fn is_tree(root: Seq<char>, items: Seq<Walked>) -> bool {
    forall|i: int, j: int|
        #![trigger items[i], items[j]]
        0 <= i < items.len() && 0 <= j < items.len() && i != j && is_recorded(items[i])
            && is_recorded(items[j]) && !stat_of(items[i]).is_dir ==> !names_below(
            root,
            items[i],
        ).is_prefix_of(names_below(root, items[j]))
}

pub(crate) proof fn lemma_parts_bound(root: Seq<char>, path: Seq<char>)
    ensures
        dirs_below(root, path).len() <= parts_of(path).len(),
{
    let rest = crate::fspath::parts_below(root, path);
    if rest.len() > 0 {
        lemma_normal_len(rest.drop_last());
    }
}

proof fn lemma_normal_len(parts: Seq<Seq<char>>)
    ensures
        crate::fspath::normal_parts(parts).len() <= parts.len(),
    decreases parts.len(),
{
    if parts.len() > 0 {
        lemma_normal_len(parts.drop_last());
    }
}

/// Appending events leaves the tree as it is.
pub(crate) proof fn lemma_events_leave_tree(t: Tables, batch: Seq<NewEvent>, names: Seq<Seq<char>>, id: FileId)
    ensures
        leads_to(with_events(t, batch), names, id) == leads_to(t, names, id),
    decreases names.len(),
{
    if names.len() > 1 && t.has_file(id) {
        if let Some(p) = t.file(id).parent_id {
            lemma_events_leave_tree(t, batch, names.drop_last(), p);
        }
    }
}

pub(crate) proof fn lemma_events_leave_settled(
    t: Tables,
    batch: Seq<NewEvent>,
    base: Seq<Seq<char>>,
    whole: Seq<Seq<char>>,
    stat: Stat,
)
    requires
        settled(t, base, whole, stat),
    ensures
        settled(with_events(t, batch), base, whole, stat),
{
    let id = choose|id: FileId| #[trigger]
        leads_to(t, base + whole, id) && t.file(id).size_bytes == recorded_size(stat) && t.file(
            id,
        ).mtime_unix == stat.mtime_unix;
    lemma_events_leave_tree(t, batch, base + whole, id);
}

/// What one step of a walk keeps: the tables stay well formed, the root is
/// still led to, settled files stay settled, and a file just seen is settled.
proof fn lemma_step(
    t: Tables,
    s: ScanState,
    base: Seq<Seq<char>>,
    item: Walked,
    options: ScanOptions,
    at: i64,
)
    requires
        t.wf(),
        s.wf(t),
        t.room_for(step_room(item)),
        leads_to(t, base, s.root_id),
    ensures
        ({
            let (u, next, step) = scan_step(t, s, item, options, at);
            &&& u.wf()
            &&& next.wf(u)
            &&& next.root == s.root
            &&& next.root_id == s.root_id
            &&& leads_to(u, base, s.root_id)
            &&& u.components.len() <= t.components.len() + step_room(item)
            &&& u.files.len() <= t.files.len() + step_room(item)
            &&& u.events.len() <= t.events.len() + step_room(item)
            &&& forall|whole: Seq<Seq<char>>, stat: Stat|
                #![trigger settled(u, base, whole, stat)]
                settled(t, base, whole, stat) && whole.len() > 0 && (is_recorded(item)
                    && !limit_reached(s.summary, options) ==> !whole.is_prefix_of(
                    names_below(s.root, item),
                )) ==> settled(u, base, whole, stat)
            &&& is_recorded(item) && !limit_reached(s.summary, options) ==> settled(
                u,
                base,
                names_below(s.root, item),
                stat_of(item),
            )
            &&& is_recorded(item) && !stat_of(item).is_dir && settled(
                t,
                base,
                names_below(s.root, item),
                stat_of(item),
            ) || !is_recorded(item) || stat_of(item).is_dir ==> next.summary.events_recorded
                == s.summary.events_recorded && u.events == t.events
        }),
{
    if is_recorded(item) && !limit_reached(s.summary, options) {
        let path = item->path@;
        let dirs = dirs_below(s.root, path);
        let name = entry_name(path);
        let stat = stat_of(item);
        lemma_parts_bound(s.root, path);
        lemma_observe(t, base, s.root_id, dirs, name, stat);
        let (observed, id, kind) = observe(t, s.root_id, dirs, name, stat);
        let (u, next, step) = scan_step(t, s, item, options, at);
        let event = entry_event(id, kind->0, at, recorded_size(stat));
        let batch = if kind is Some {
            seq![event]
        } else {
            Seq::empty()
        };
        assert(u =~= with_events(observed, batch));
        lemma_leads_to_stays(t, observed, base, s.root_id);
        lemma_told(observed, id, kind, at, recorded_size(stat));
        lemma_events_leave_tree(observed, batch, base, s.root_id);
        assert forall|whole: Seq<Seq<char>>, file: Stat|
            #![trigger settled(u, base, whole, file)]
            settled(t, base, whole, file) && whole.len() > 0 && !whole.is_prefix_of(
                names_below(s.root, item),
            ) implies settled(u, base, whole, file) by {
            lemma_stays_settled(t, base, s.root_id, whole, file, dirs, name, stat);
            lemma_events_leave_settled(observed, batch, base, whole, file);
        }
        assert(settled(observed, base, dirs.push(name), stat)) by {
            assert(leads_to(observed, base + dirs.push(name), id));
        }
        lemma_events_leave_settled(observed, batch, base, dirs.push(name), stat);
        if !stat.is_dir && settled(t, base, dirs.push(name), stat) {
            lemma_settled_kind(t, base, s.root_id, dirs, name, stat, stat);
        }
    }
}

/// Telling what happened to an entry keeps the tables well formed.
pub(crate) proof fn lemma_told(
    t: Tables,
    id: FileId,
    kind: Option<EventKind>,
    at: i64,
    size: Option<i64>,
)
    requires
        t.wf(),
        t.has_file(id),
        t.events.len() < i64::MAX,
    ensures
        told(t, id, kind, at, size).wf(),
{
    let after = told(t, id, kind, at, size);
    assert forall|i: int| 0 <= i < after.events.len() implies after.has_file(
        (#[trigger] after.events[i]).file_id,
    ) by {
        if i < t.events.len() {
            assert(t.has_file(t.events[i].file_id));
        }
    }
    assert forall|i: int| 0 <= i < after.files.len() implies after.has_component(
        (#[trigger] after.files[i]).component_id,
    ) by {
        assert(t.has_component(t.files[i].component_id));
    }
    assert(t.live_entries_unique());
    assert(after.live_entries_unique());
}

/// A walk keeps the tables well formed, and every file that it took in is
/// settled at its end.
pub(crate) proof fn lemma_walk_settles(
    t: Tables,
    base: Seq<Seq<char>>,
    s: ScanState,
    items: Seq<Walked>,
    options: ScanOptions,
    at: i64,
    n: int,
)
    requires
        t.wf(),
        s.wf(t),
        0 <= n <= items.len(),
        t.room_for(walk_room(items)),
        leads_to(t, base, s.root_id),
        is_tree(s.root, items),
    ensures
        ({
            let (u, end) = scan_steps(t, s, items.take(n), options, at);
            &&& u.wf()
            &&& end.wf(u)
            &&& end.root == s.root
            &&& end.root_id == s.root_id
            &&& leads_to(u, base, s.root_id)
            &&& u.components.len() <= t.components.len() + walk_room(items.take(n))
            &&& u.files.len() <= t.files.len() + walk_room(items.take(n))
            &&& u.events.len() <= t.events.len() + walk_room(items.take(n))
            &&& forall|i: int|
                0 <= i < n && is_recorded(#[trigger] items[i]) && !stat_of(items[i]).is_dir
                    && !limit_reached(
                    scan_steps(t, s, items.take(i), options, at).1.summary,
                    options,
                ) ==> settled(u, base, names_below(s.root, items[i]), stat_of(items[i]))
        }),
    decreases n,
{
    if n == 0 {
        assert(items.take(0) =~= Seq::<Walked>::empty());
    } else {
        lemma_walk_settles(t, base, s, items, options, at, n - 1);
        let (before, state) = scan_steps(t, s, items.take(n - 1), options, at);
        assert(items.take(n).drop_last() =~= items.take(n - 1));
        assert(items.take(n).last() == items[n - 1]);
        lemma_walk_room(items, n);
        lemma_step(before, state, base, items[n - 1], options, at);
        let (u, end) = scan_steps(t, s, items.take(n), options, at);
        assert forall|i: int|
            0 <= i < n && is_recorded(#[trigger] items[i]) && !stat_of(items[i]).is_dir
                && !limit_reached(
                scan_steps(t, s, items.take(i), options, at).1.summary,
                options,
            ) implies settled(u, base, names_below(s.root, items[i]), stat_of(items[i])) by {
            if i < n - 1 {
                assert(settled(before, base, names_below(s.root, items[i]), stat_of(items[i])));
                assert(is_recorded(items[n - 1]) ==> !names_below(
                    s.root,
                    items[i],
                ).is_prefix_of(names_below(s.root, items[n - 1])));
            }
        }
    }
}

/// Part of a walk needs no more room than all of it.
pub(crate) proof fn lemma_walk_room(items: Seq<Walked>, n: int)
    requires
        0 <= n <= items.len(),
    ensures
        walk_room(items.take(n)) <= walk_room(items),
    decreases items.len(),
{
    if n == items.len() {
        assert(items.take(n) =~= items);
    } else {
        lemma_walk_room(items.drop_last(), n);
        assert(items.drop_last().take(n) =~= items.take(n));
    }
}

/// Two walks of the same entries reach the entry limit at the same step.
proof fn lemma_same_counts(
    a: Tables,
    b: Tables,
    s: ScanState,
    items: Seq<Walked>,
    options: ScanOptions,
    first: i64,
    second: i64,
    n: int,
)
    requires
        0 <= n <= items.len(),
    ensures
        ({
            let x = scan_steps(a, s, items.take(n), options, first).1.summary;
            let y = scan_steps(b, s, items.take(n), options, second).1.summary;
            x.files_seen == y.files_seen && x.dirs_seen == y.dirs_seen && x.skipped == y.skipped
        }),
    decreases n,
{
    if n == 0 {
        assert(items.take(0) =~= Seq::<Walked>::empty());
    } else {
        lemma_same_counts(a, b, s, items, options, first, second, n - 1);
        assert(items.take(n).drop_last() =~= items.take(n - 1));
    }
}

/// A walk over files that are all settled records nothing, and leaves them
/// settled.
proof fn lemma_walk_is_quiet(
    t: Tables,
    base: Seq<Seq<char>>,
    s: ScanState,
    items: Seq<Walked>,
    options: ScanOptions,
    at: i64,
    n: int,
)
    requires
        t.wf(),
        s.wf(t),
        0 <= n <= items.len(),
        t.room_for(walk_room(items)),
        leads_to(t, base, s.root_id),
        is_tree(s.root, items),
        forall|i: int|
            0 <= i < items.len() && is_recorded(#[trigger] items[i]) && !stat_of(items[i]).is_dir
                && !limit_reached(
                scan_steps(t, s, items.take(i), options, at).1.summary,
                options,
            ) ==> settled(t, base, names_below(s.root, items[i]), stat_of(items[i])),
    ensures
        ({
            let (u, end) = scan_steps(t, s, items.take(n), options, at);
            &&& u.wf()
            &&& end.wf(u)
            &&& end.root == s.root
            &&& end.root_id == s.root_id
            &&& leads_to(u, base, s.root_id)
            &&& u.components.len() <= t.components.len() + walk_room(items.take(n))
            &&& u.files.len() <= t.files.len() + walk_room(items.take(n))
            &&& u.events.len() <= t.events.len() + walk_room(items.take(n))
            &&& u.events == t.events
            &&& end.summary.events_recorded == s.summary.events_recorded
            &&& forall|i: int|
                0 <= i < items.len() && is_recorded(#[trigger] items[i]) && !stat_of(
                    items[i],
                ).is_dir && !limit_reached(
                    scan_steps(t, s, items.take(i), options, at).1.summary,
                    options,
                ) ==> settled(u, base, names_below(s.root, items[i]), stat_of(items[i]))
        }),
    decreases n,
{
    if n == 0 {
        assert(items.take(0) =~= Seq::<Walked>::empty());
    } else {
        lemma_walk_is_quiet(t, base, s, items, options, at, n - 1);
        let (before, state) = scan_steps(t, s, items.take(n - 1), options, at);
        assert(items.take(n).drop_last() =~= items.take(n - 1));
        assert(items.take(n).last() == items[n - 1]);
        lemma_walk_room(items, n);
        lemma_step(before, state, base, items[n - 1], options, at);
        let (u, end) = scan_steps(t, s, items.take(n), options, at);
        assert forall|i: int|
            0 <= i < items.len() && is_recorded(#[trigger] items[i]) && !stat_of(items[i]).is_dir
                && !limit_reached(
                scan_steps(t, s, items.take(i), options, at).1.summary,
                options,
            ) implies settled(u, base, names_below(s.root, items[i]), stat_of(items[i])) by {
            assert(settled(before, base, names_below(s.root, items[i]), stat_of(items[i])));
            if i != n - 1 {
                assert(is_recorded(items[n - 1]) ==> !names_below(
                    s.root,
                    items[i],
                ).is_prefix_of(names_below(s.root, items[n - 1])));
            }
        }
    }
}

/// What one step of a walk does to the rows: an entry that is seen is led to from
/// then on, and one that was led to before adds none.
proof fn lemma_step_leads(
    t: Tables,
    s: ScanState,
    base: Seq<Seq<char>>,
    item: Walked,
    options: ScanOptions,
    at: i64,
)
    requires
        t.wf(),
        s.wf(t),
        t.room_for(step_room(item)),
        leads_to(t, base, s.root_id),
    ensures
        ({
            let u = scan_step(t, s, item, options, at).0;
            let seen = is_recorded(item) && !limit_reached(s.summary, options);
            &&& keeps_alive(t, u)
            &&& seen ==> is_led(u, base + names_below(s.root, item))
            &&& (seen ==> is_led(t, base + names_below(s.root, item))) ==> u.components
                == t.components && u.files.len() == t.files.len()
        }),
{
    if is_recorded(item) && !limit_reached(s.summary, options) {
        let path = item->path@;
        let dirs = dirs_below(s.root, path);
        let name = entry_name(path);
        let stat = stat_of(item);
        let whole = base + dirs.push(name);
        lemma_parts_bound(s.root, path);
        lemma_observe(t, base, s.root_id, dirs, name, stat);
        let (observed, id, kind) = observe(t, s.root_id, dirs, name, stat);
        let u = scan_step(t, s, item, options, at).0;
        assert(u.files == observed.files && u.components == observed.components);
        assert(keeps_alive(observed, u));
        lemma_leads_to_stays(observed, u, whole, id);
        if is_led(t, whole) {
            let known = choose|known: FileId| leads_to(t, whole, known);
            lemma_observe_again(t, base, s.root_id, dirs, name, stat, known);
        }
    }
}

/// Names that lead to a file lead to it still.
proof fn lemma_led_stays(t: Tables, u: Tables, names: Seq<Seq<char>>)
    requires
        keeps_alive(t, u),
        is_led(t, names),
    ensures
        is_led(u, names),
{
    let id = choose|id: FileId| leads_to(t, names, id);
    lemma_leads_to_stays(t, u, names, id);
}

/// Every entry that a walk took in is led to at its end.
proof fn lemma_walk_leads(
    t: Tables,
    base: Seq<Seq<char>>,
    s: ScanState,
    items: Seq<Walked>,
    options: ScanOptions,
    at: i64,
    n: int,
)
    requires
        t.wf(),
        s.wf(t),
        0 <= n <= items.len(),
        t.room_for(walk_room(items)),
        leads_to(t, base, s.root_id),
        is_tree(s.root, items),
    ensures
        forall|i: int|
            0 <= i < n && is_recorded(#[trigger] items[i]) && !limit_reached(
                scan_steps(t, s, items.take(i), options, at).1.summary,
                options,
            ) ==> is_led(
                scan_steps(t, s, items.take(n), options, at).0,
                base + names_below(s.root, items[i]),
            ),
    decreases n,
{
    if n > 0 {
        lemma_walk_leads(t, base, s, items, options, at, n - 1);
        lemma_walk_settles(t, base, s, items, options, at, n - 1);
        let (before, state) = scan_steps(t, s, items.take(n - 1), options, at);
        assert(items.take(n).drop_last() =~= items.take(n - 1));
        assert(items.take(n).last() == items[n - 1]);
        lemma_walk_room(items, n);
        lemma_step_leads(before, state, base, items[n - 1], options, at);
        let u = scan_steps(t, s, items.take(n), options, at).0;
        assert forall|i: int|
            0 <= i < n && is_recorded(#[trigger] items[i]) && !limit_reached(
                scan_steps(t, s, items.take(i), options, at).1.summary,
                options,
            ) implies is_led(u, base + names_below(s.root, items[i])) by {
            if i < n - 1 {
                lemma_led_stays(before, u, base + names_below(s.root, items[i]));
            }
        }
    }
}

/// A walk over entries that are all led to adds no row.
proof fn lemma_walk_adds_no_rows(
    t: Tables,
    base: Seq<Seq<char>>,
    s: ScanState,
    items: Seq<Walked>,
    options: ScanOptions,
    at: i64,
    n: int,
)
    requires
        t.wf(),
        s.wf(t),
        0 <= n <= items.len(),
        t.room_for(walk_room(items)),
        leads_to(t, base, s.root_id),
        is_tree(s.root, items),
        forall|i: int|
            0 <= i < items.len() && is_recorded(#[trigger] items[i]) && !limit_reached(
                scan_steps(t, s, items.take(i), options, at).1.summary,
                options,
            ) ==> is_led(t, base + names_below(s.root, items[i])),
    ensures
        ({
            let u = scan_steps(t, s, items.take(n), options, at).0;
            &&& keeps_alive(t, u)
            &&& u.components == t.components
            &&& u.files.len() == t.files.len()
        }),
    decreases n,
{
    if n == 0 {
        assert(items.take(0) =~= Seq::<Walked>::empty());
    } else {
        lemma_walk_adds_no_rows(t, base, s, items, options, at, n - 1);
        lemma_walk_settles(t, base, s, items, options, at, n - 1);
        let (before, state) = scan_steps(t, s, items.take(n - 1), options, at);
        assert(items.take(n).drop_last() =~= items.take(n - 1));
        assert(items.take(n).last() == items[n - 1]);
        lemma_walk_room(items, n);
        lemma_step_leads(before, state, base, items[n - 1], options, at);
        let u = scan_steps(t, s, items.take(n), options, at).0;
        if is_recorded(items[n - 1]) && !limit_reached(state.summary, options) {
            lemma_led_stays(t, before, base + names_below(s.root, items[n - 1]));
        }
        assert forall|i: int| 0 <= i < t.files.len() && t.files[i].deleted_at is None implies (
        #[trigger] u.files[i]).deleted_at is None by {
            assert(before.files[i].deleted_at is None);
        }
    }
}

/// Scanning an unchanged tree again records no event and adds no row: a second
/// walk of `root` that yields the same entries with the same metadata sees as
/// many files and directories, finds nothing created and nothing modified, and
/// finds a row for everything, whatever the times of the two walks and whether
/// or not an entry limit cuts them short.
pub proof fn rescanning_an_unchanged_tree_records_nothing(
    t: Tables,
    root: Seq<char>,
    items: Seq<Walked>,
    options: ScanOptions,
    first: i64,
    second: i64,
)
    requires
        t.wf(),
        components_of(root).len() > 0,
        t.room_for(2 * (components_of(root).len() + walk_room(items))),
        is_tree(root, items),
    ensures
        ({
            let (start, id) = dir_chain(t, None, components_of(root));
            let (walked, state) = scan_steps(
                start,
                fresh_scan(root, id->0),
                items,
                options,
                first,
            );
            let (again, same) = dir_chain(walked, None, components_of(root));
            let (end, quiet) = scan_steps(
                again,
                fresh_scan(root, same->0),
                items,
                options,
                second,
            );
            &&& quiet.summary.files_seen == state.summary.files_seen
            &&& quiet.summary.dirs_seen == state.summary.dirs_seen
            &&& quiet.summary.skipped == state.summary.skipped
            &&& quiet.summary.events_recorded == 0
            &&& end.events == walked.events
            &&& end.files.len() == walked.files.len()
            &&& end.components == walked.components
        }),
{
    let base = components_of(root);
    lemma_dir_chain(t, base);
    let (start, id) = dir_chain(t, None, base);
    lemma_chain_leads(start, id->0, base);
    let s = fresh_scan(root, id->0);
    lemma_walk_settles(start, base, s, items, options, first, items.len() as int);
    assert(items.take(items.len() as int) =~= items);
    let (walked, state) = scan_steps(start, s, items, options, first);
    // the root is found again, and nothing but directories is touched for it
    let (again, same) = dir_chain(walked, None, base);
    lemma_root_again(walked, base, id->0);
    let q = fresh_scan(root, same->0);
    assert(q == s);
    assert forall|i: int|
        0 <= i < items.len() && is_recorded(#[trigger] items[i]) && !stat_of(items[i]).is_dir
            && !limit_reached(
            scan_steps(again, q, items.take(i), options, second).1.summary,
            options,
        ) implies settled(again, base, names_below(root, items[i]), stat_of(items[i])) by {
        lemma_same_counts(start, again, s, items, options, first, second, i);
        assert(settled(walked, base, names_below(root, items[i]), stat_of(items[i])));
        lemma_root_leaves_settled(
            walked,
            base,
            id->0,
            names_below(root, items[i]),
            stat_of(items[i]),
        );
    }
    lemma_walk_is_quiet(again, base, q, items, options, second, items.len() as int);
    let (end, quiet) = scan_steps(again, q, items, options, second);
    lemma_same_counts(start, again, s, items, options, first, second, items.len() as int);
    lemma_walk_leads(start, base, s, items, options, first, items.len() as int);
    assert forall|i: int|
        0 <= i < items.len() && is_recorded(#[trigger] items[i]) && !limit_reached(
            scan_steps(again, q, items.take(i), options, second).1.summary,
            options,
        ) implies is_led(again, base + names_below(root, items[i])) by {
        lemma_same_counts(start, again, s, items, options, first, second, i);
        lemma_led_stays(walked, again, base + names_below(root, items[i]));
    }
    lemma_walk_adds_no_rows(again, base, q, items, options, second, items.len() as int);
}

/// A scan makes up for whatever was missed before it: whatever the tables held
/// when it began, after an interrupted scan too, every file that it saw is
/// indexed at its end just as it was seen.
pub proof fn a_scan_indexes_every_file_it_saw(
    t: Tables,
    root: Seq<char>,
    items: Seq<Walked>,
    options: ScanOptions,
    at: i64,
    i: int,
)
    requires
        t.wf(),
        components_of(root).len() > 0,
        t.room_for(components_of(root).len() + walk_room(items)),
        is_tree(root, items),
        0 <= i < items.len(),
        is_recorded(items[i]),
        !stat_of(items[i]).is_dir,
    ensures
        ({
            let (start, id) = dir_chain(t, None, components_of(root));
            let s = fresh_scan(root, id->0);
            let (walked, state) = scan_steps(start, s, items, options, at);
            !limit_reached(scan_steps(start, s, items.take(i), options, at).1.summary, options)
                ==> settled(
                walked,
                components_of(root),
                names_below(root, items[i]),
                stat_of(items[i]),
            )
        }),
{
    let base = components_of(root);
    lemma_dir_chain(t, base);
    let (start, id) = dir_chain(t, None, base);
    lemma_chain_leads(start, id->0, base);
    let s = fresh_scan(root, id->0);
    lemma_walk_settles(start, base, s, items, options, at, items.len() as int);
    assert(items.take(items.len() as int) =~= items);
    let (walked, state) = scan_steps(start, s, items, options, at);
    if !limit_reached(scan_steps(start, s, items.take(i), options, at).1.summary, options) {
        assert(settled(walked, base, names_below(root, items[i]), stat_of(items[i])));
    }
}

/// A chain of live directories is led to by its names.
pub(crate) proof fn lemma_chain_leads(t: Tables, id: FileId, names: Seq<Seq<char>>)
    requires
        is_dir_chain(t, id, names),
    ensures
        leads_to(t, names, id),
    decreases names.len(),
{
    if let Some(p) = t.file(id).parent_id {
        lemma_chain_leads(t, p, names.drop_last());
    }
}

/// Observing the root again finds the same row; only rows on the way to it may
/// change.
pub(crate) proof fn lemma_root_again(t: Tables, base: Seq<Seq<char>>, id: FileId)
    requires
        t.wf(),
        leads_to(t, base, id),
    ensures
        ({
            let (u, same) = dir_chain(t, None, base);
            &&& same == Some(id)
            &&& u.wf()
            &&& keeps_alive(t, u)
            &&& leads_to(u, base, id)
            &&& u.components == t.components
            &&& u.files.len() == t.files.len()
            &&& u.events == t.events
            &&& forall|x: FileId|
                t.has_file(x) && #[trigger] u.file(x) != t.file(x) ==> exists|k: int|
                    0 < k <= base.len() && #[trigger] leads_to(u, base.take(k), x)
        }),
    decreases base.len(),
{
    let shorter = base.drop_last();
    let parent = t.file(id).parent_id;
    let component = t.file(id).component_id;
    if let Some(p) = parent {
        lemma_root_again(t, shorter, p);
    } else {
        assert(shorter =~= Seq::<Seq<char>>::empty());
    }
    let (before, found) = dir_chain(t, None, shorter);
    assert(found == parent);
    assert(keeps_alive(t, before));
    lemma_leads_to_stays(t, before, base, id);
    lemma_index_of(before.components, base.last(), component - 1);
    assert(intern(before, base.last()) == (before, component));
    lemma_live_is_chosen(before, id - 1);
    let (u, same) = dir_chain(t, None, base);
    let fresh = FileRow {
        size_bytes: None,
        mtime_unix: None,
        deleted_at: None,
        ..before.file(id)
    };
    assert(u == before.set_file(id, fresh));
    assert(u.wf()) by {
        assert forall|i: int| 0 <= i < u.files.len() implies u.has_component(
            (#[trigger] u.files[i]).component_id,
        ) by {
            assert(before.has_component(before.files[i].component_id));
        }
        assert forall|i: int| 0 <= i < u.events.len() implies u.has_file(
            (#[trigger] u.events[i]).file_id,
        ) by {
            assert(before.has_file(before.events[i].file_id));
        }
        assert forall|i: int, j: int|
            0 <= i < j < u.files.len() && (#[trigger] u.files[i]).deleted_at is None && (
            #[trigger] u.files[j]).deleted_at is None implies !(u.files[i].parent_id
            == u.files[j].parent_id && u.files[i].component_id == u.files[j].component_id) by {
            assert(before.files[i].deleted_at is None && before.files[j].deleted_at is None);
        }
    }
    assert(keeps_alive(before, u));
    assert forall|i: int| 0 <= i < t.files.len() && t.files[i].deleted_at is None implies (
    #[trigger] u.files[i]).deleted_at is None by {
        assert(before.files[i].deleted_at is None);
    }
    lemma_leads_to_stays(t, u, base, id);
    assert forall|x: FileId| t.has_file(x) && #[trigger] u.file(x) != t.file(x) implies exists|
        k: int,
    |
        0 < k <= base.len() && #[trigger] leads_to(u, base.take(k), x) by {
        if x == id {
            assert(base.take(base.len() as int) =~= base);
            assert(leads_to(u, base.take(base.len() as int), x));
        } else {
            assert(u.file(x) == before.file(x));
            let k = choose|k: int|
                0 < k <= shorter.len() && #[trigger] leads_to(before, shorter.take(k), x);
            assert(shorter.take(k) =~= base.take(k));
            lemma_leads_to_stays(before, u, base.take(k), x);
            assert(leads_to(u, base.take(k), x));
        }
    }
}

/// Observing the root again leaves settled files settled.
pub(crate) proof fn lemma_root_leaves_settled(
    t: Tables,
    base: Seq<Seq<char>>,
    root_id: FileId,
    whole: Seq<Seq<char>>,
    stat: Stat,
)
    requires
        t.wf(),
        leads_to(t, base, root_id),
        whole.len() > 0,
        settled(t, base, whole, stat),
    ensures
        settled(dir_chain(t, None, base).0, base, whole, stat),
{
    lemma_root_again(t, base, root_id);
    let u = dir_chain(t, None, base).0;
    let id = choose|id: FileId| #[trigger]
        leads_to(t, base + whole, id) && t.file(id).size_bytes == recorded_size(stat) && t.file(
            id,
        ).mtime_unix == stat.mtime_unix;
    lemma_leads_to_stays(t, u, base + whole, id);
    if u.file(id) != t.file(id) {
        let k = choose|k: int| 0 < k <= base.len() && #[trigger] leads_to(u, base.take(k), id);
        lemma_led_by_one(u, base + whole, base.take(k), id);
        assert((base + whole).len() == base.take(k).len());
        assert(false);
    }
}

} // verus!
