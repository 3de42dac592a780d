//! What looking names up finds, and what observing an entry changes about that.
//!
//! Names are followed from the top of the tree, at each place to the row that
//! stands for it, be it live or recorded as gone: a directory that was removed
//! and is seen again is the same directory, and what lies in it is found again.
//! Observing an entry changes what its own names lead to, and what the names of
//! the directories above it lead to; everything else is found as before.
use vstd::prelude::*;

use crate::paths::{
    at_place, chosen, dir_chain, intern, interning_is_stable, is_chosen, lemma_chosen_unique,
    lemma_index_of, lemma_live_is_chosen, lemma_upsert, preferred, upsert,
};
use crate::record::{entry_at, follow, lemma_entry_place};
use crate::rescan::leads_to;
use crate::scan::{live_row, observe, recorded_size, Stat};
use crate::store::{ComponentId, FileId, FileRow, Tables};

verus! {

/// Whether every entry stands below one that exists, or at the top of the tree.
pub open spec fn parents_exist(t: Tables) -> bool {
    forall|i: int| 0 <= i < t.files.len() ==> t.parent_ok((#[trigger] t.files[i]).parent_id)
}

/// The live entry that names lead to. The directories above it may be recorded
/// as gone.
pub open spec fn live_at(t: Tables, names: Seq<Seq<char>>) -> Option<FileId> {
    match follow(t, names) {
        Some(Some(id)) => if t.file(id).deleted_at is None {
            Some(id)
        } else {
            None
        },
        _ => None,
    }
}

/// Whether names lead where they led, to the same row.
pub open spec fn same_file(t: Tables, u: Tables, names: Seq<Seq<char>>) -> bool {
    &&& follow(u, names) == follow(t, names)
    &&& follow(t, names) matches Some(Some(id)) ==> u.file(id) == t.file(id)
}

/// Whether names are not those of a directory on the way down from `base`.
pub open spec fn is_beside(
    base: Seq<Seq<char>>,
    dirs: Seq<Seq<char>>,
    names: Seq<Seq<char>>,
) -> bool {
    forall|k: int| 0 < k <= dirs.len() ==> names != base + #[trigger] dirs.take(k)
}

/// A row that names lead to exists, and its place is what the names say.
pub(crate) proof fn lemma_followed(t: Tables, names: Seq<Seq<char>>)
    requires
        t.wf(),
        follow(t, names) is Some,
    ensures
        t.parent_ok(follow(t, names)->0),
        names.len() == 0 <==> follow(t, names)->0 is None,
        follow(t, names) matches Some(Some(id)) ==> {
            &&& t.has_file(id)
            &&& follow(t, names.drop_last()) == Some(t.file(id).parent_id)
            &&& t.components[t.file(id).component_id - 1] == names.last()
        },
{
    if names.len() > 0 {
        lemma_entry_place(t, follow(t, names.drop_last())->0, names.last());
    }
}

/// A row is led to by one sequence of names only.
pub(crate) proof fn lemma_followed_by_one(t: Tables, m: Seq<Seq<char>>, n: Seq<Seq<char>>)
    requires
        t.wf(),
        follow(t, m) is Some,
        follow(t, m) == follow(t, n),
    ensures
        m == n,
    decreases m.len(),
{
    lemma_followed(t, m);
    lemma_followed(t, n);
    if m.len() > 0 {
        lemma_followed_by_one(t, m.drop_last(), n.drop_last());
        assert(m =~= m.drop_last().push(m.last()));
        assert(n =~= n.drop_last().push(n.last()));
    } else {
        assert(m =~= n);
    }
}

/// Names that live entries carry lead to them.
pub(crate) proof fn lemma_led_is_followed(t: Tables, names: Seq<Seq<char>>, id: FileId)
    requires
        t.wf(),
        leads_to(t, names, id),
    ensures
        follow(t, names) == Some(Some(id)),
        live_at(t, names) == Some(id),
    decreases names.len(),
{
    let row = t.file(id);
    if let Some(p) = row.parent_id {
        lemma_led_is_followed(t, names.drop_last(), p);
    } else {
        assert(names.drop_last() =~= Seq::<Seq<char>>::empty());
    }
    lemma_index_of(t.components, names.last(), row.component_id - 1);
    lemma_live_is_chosen(t, id - 1);
    assert(follow(t, names.drop_last()) == Some(row.parent_id));
    assert(entry_at(t, row.parent_id, names.last()) == Some(id));
}

/// What names lead to depends on the rows and their names alone.
pub(crate) proof fn lemma_follow_reads(t: Tables, u: Tables, names: Seq<Seq<char>>)
    requires
        t.files == u.files,
        t.components == u.components,
    ensures
        follow(t, names) == follow(u, names),
        live_at(t, names) == live_at(u, names),
    decreases names.len(),
{
    if names.len() > 0 {
        lemma_follow_reads(t, u, names.drop_last());
    }
}

/// A place whose rows are the same has the same row standing for it.
proof fn lemma_same_chosen(
    f: Seq<FileRow>,
    g: Seq<FileRow>,
    parent: Option<FileId>,
    component: ComponentId,
)
    requires
        f.len() <= g.len(),
        forall|j: int|
            0 <= j < f.len() && (at_place(f[j], parent, component) || at_place(
                #[trigger] g[j],
                parent,
                component,
            )) ==> f[j] == g[j],
        forall|j: int| f.len() <= j < g.len() ==> !at_place(#[trigger] g[j], parent, component),
    ensures
        chosen(f, parent, component) == chosen(g, parent, component),
{
    assert forall|i: int|
        is_chosen(f, parent, component, i) == is_chosen(g, parent, component, i) by {
        if is_chosen(f, parent, component, i) {
            assert(f[i] == g[i]);
            assert forall|j: int|
                0 <= j < g.len() && j != i && at_place(
                    #[trigger] g[j],
                    parent,
                    component,
                ) implies preferred(g, i, j) by {
                assert(f[j] == g[j]);
                assert(preferred(f, i, j));
            }
        }
        if is_chosen(g, parent, component, i) {
            assert(f[i] == g[i]);
            assert forall|j: int|
                0 <= j < f.len() && j != i && at_place(
                    #[trigger] f[j],
                    parent,
                    component,
                ) implies preferred(f, i, j) by {
                assert(f[j] == g[j]);
                assert(preferred(g, i, j));
            }
        }
    }
    if let Some(i) = chosen(f, parent, component) {
        assert(is_chosen(f, parent, component, i));
        assert(is_chosen(g, parent, component, i));
        lemma_chosen_unique(g, parent, component, i);
        lemma_chosen_unique(f, parent, component, i);
    } else if let Some(i) = chosen(g, parent, component) {
        assert(is_chosen(g, parent, component, i));
        assert(is_chosen(f, parent, component, i));
    }
}

/// No row stands below one that does not exist.
proof fn lemma_nothing_below(t: Tables, id: FileId, name: Seq<char>)
    requires
        t.wf(),
        parents_exist(t),
        !t.has_file(id),
    ensures
        entry_at(t, Some(id), name) is None,
{
    lemma_entry_place(t, Some(id), name);
    if let Some(x) = entry_at(t, Some(id), name) {
        assert(t.parent_ok(t.files[x - 1].parent_id));
    }
}

/// Observing an entry at a place: the place has a row then, the one it had where
/// it had any, and every other place has the row it had.
proof fn lemma_place(
    t: Tables,
    parent: Option<FileId>,
    name: Seq<char>,
    is_dir: bool,
    size_bytes: Option<i64>,
    mtime_unix: Option<i64>,
)
    requires
        t.wf(),
        t.room_for(1),
        parents_exist(t),
        t.parent_ok(parent),
    ensures
        ({
            let (interned, component) = intern(t, name);
            let (u, id) = upsert(interned, parent, component, is_dir, size_bytes, mtime_unix);
            &&& u.wf()
            &&& parents_exist(u)
            &&& u.has_file(id)
            &&& u.file(id).parent_id == parent
            &&& u.file(id).deleted_at is None
            &&& u.components.len() <= t.components.len() + 1
            &&& t.files.len() <= u.files.len() <= t.files.len() + 1
            &&& u.events == t.events
            &&& entry_at(u, parent, name) == Some(id)
            &&& entry_at(t, parent, name) matches Some(x) ==> x == id
            &&& entry_at(t, parent, name) is None ==> !t.has_file(id)
            &&& live_row(interned, parent, component) == match entry_at(t, parent, name) {
                Some(x) => if t.file(x).deleted_at is None {
                    Some(t.file(x))
                } else {
                    None
                },
                None => None,
            }
            &&& forall|p: Option<FileId>, n: Seq<char>|
                (p != parent || n != name) ==> #[trigger] entry_at(u, p, n) == entry_at(t, p, n)
            &&& forall|x: FileId| t.has_file(x) && x != id ==> #[trigger] u.file(x) == t.file(x)
        }),
{
    interning_is_stable(t, name);
    let (interned, component) = intern(t, name);
    let known = t.components.contains(name);
    if known {
        lemma_index_of(t.components, name, t.components.index_of(name));
    } else {
        lemma_index_of(interned.components, name, t.components.len() as int);
        if let Some(i) = chosen(interned.files, parent, component) {
            assert(is_chosen(interned.files, parent, component, i));
            assert(t.has_component(t.files[i].component_id));
        }
    }
    lemma_upsert(interned, parent, component, is_dir, size_bytes, mtime_unix);
    let (u, id) = upsert(interned, parent, component, is_dir, size_bytes, mtime_unix);
    if let Some(i) = chosen(interned.files, parent, component) {
        assert(is_chosen(interned.files, parent, component, i));
    }
    lemma_live_is_chosen(u, id - 1);
    assert(u.components[component - 1] == name);
    lemma_index_of(u.components, name, component - 1);
    assert(parents_exist(u)) by {
        assert forall|i: int| 0 <= i < u.files.len() implies u.parent_ok(
            (#[trigger] u.files[i]).parent_id,
        ) by {
            if i != id - 1 {
                assert(u.files[i] == t.files[i]);
                assert(t.parent_ok(t.files[i].parent_id));
            }
        }
    }
    assert forall|p: Option<FileId>, n: Seq<char>| (p != parent || n != name) implies
        #[trigger] entry_at(u, p, n) == entry_at(t, p, n) by {
        if t.components.contains(n) {
            let k = t.components.index_of(n);
            assert(u.components[k] == n);
            lemma_index_of(t.components, n, k);
            lemma_index_of(u.components, n, k);
            let c = (k + 1) as i64;
            if n != name {
                assert(c != component);
            }
            lemma_same_chosen(t.files, u.files, p, c);
        } else if u.components.contains(n) {
            let k = u.components.index_of(n);
            assert(u.components[k] == n);
            if k < t.components.len() {
                assert(t.components[k] == n);
            }
            assert(n == name);
            lemma_entry_place(u, p, n);
            if let Some(x) = entry_at(u, p, n) {
                if x != id {
                    assert(u.files[x - 1] == t.files[x - 1]);
                    assert(t.has_component(t.files[x - 1].component_id));
                }
                assert(false);
            }
        }
    }
}

/// Observing an entry where names lead leaves what other names lead to.
proof fn lemma_others_followed(
    t: Tables,
    u: Tables,
    above: Seq<Seq<char>>,
    name: Seq<char>,
    id: FileId,
    names: Seq<Seq<char>>,
)
    requires
        t.wf(),
        parents_exist(t),
        follow(t, above) is Some,
        ({
            let parent = follow(t, above)->0;
            &&& entry_at(u, parent, name) == Some(id)
            &&& entry_at(t, parent, name) matches Some(x) ==> x == id
            &&& entry_at(t, parent, name) is None ==> !t.has_file(id)
            &&& forall|p: Option<FileId>, n: Seq<char>|
                (p != parent || n != name) ==> #[trigger] entry_at(u, p, n) == entry_at(t, p, n)
        }),
        names != above.push(name),
    ensures
        follow(u, names) == follow(t, names),
    decreases names.len(),
{
    if names.len() > 0 {
        let shorter = names.drop_last();
        let parent = follow(t, above)->0;
        let whole = above.push(name);
        assert(whole.drop_last() =~= above);
        assert(names =~= shorter.push(names.last()));
        lemma_followed(t, above);
        if shorter == whole {
            assert(above != whole);
            lemma_others_followed(t, u, above, name, id, above);
            assert(follow(u, whole) == Some(Some(id)));
            if entry_at(t, parent, name) is Some {
                assert(follow(t, whole) == Some(Some(id)));
                if parent == Some(id) {
                    lemma_followed_by_one(t, above, whole);
                    assert(above.len() == whole.len());
                }
            } else {
                lemma_nothing_below(t, id, names.last());
                assert(parent != Some(id));
            }
            assert(entry_at(u, Some(id), names.last()) == entry_at(t, Some(id), names.last()));
        } else {
            lemma_others_followed(t, u, above, name, id, shorter);
            if follow(t, shorter) == Some(parent) && names.last() == name {
                lemma_followed_by_one(t, shorter, above);
                assert(false);
            }
        }
    }
}

/// What observing directories below a known one does to what names lead to.
pub(crate) proof fn lemma_dirs_followed(
    t: Tables,
    base: Seq<Seq<char>>,
    dirs: Seq<Seq<char>>,
)
    requires
        t.wf(),
        t.room_for(dirs.len()),
        parents_exist(t),
        follow(t, base) is Some,
    ensures
        ({
            let (u, found) = dir_chain(t, follow(t, base)->0, dirs);
            &&& u.wf()
            &&& parents_exist(u)
            &&& u.components.len() <= t.components.len() + dirs.len()
            &&& t.files.len() <= u.files.len() <= t.files.len() + dirs.len()
            &&& u.events == t.events
            &&& follow(u, base + dirs) == Some(found)
            &&& forall|names: Seq<Seq<char>>|
                is_beside(base, dirs, names) ==> #[trigger] same_file(t, u, names)
        }),
    decreases dirs.len(),
{
    let top = follow(t, base)->0;
    if dirs.len() == 0 {
        assert(base + dirs =~= base);
    } else {
        let shorter = dirs.drop_last();
        let name = dirs.last();
        lemma_dirs_followed(t, base, shorter);
        let (before, parent) = dir_chain(t, top, shorter);
        let above = base + shorter;
        let whole = base + dirs;
        assert(above.push(name) =~= whole);
        assert(whole.drop_last() =~= above);
        lemma_followed(before, above);
        lemma_place(before, parent, name, true, None, None);
        let (interned, component) = intern(before, name);
        let (u, id) = upsert(interned, parent, component, true, None, None);
        assert((u, Some(id)) == dir_chain(t, top, dirs));
        assert(above != whole);
        lemma_others_followed(before, u, above, name, id, above);
        assert(follow(u, whole) == Some(Some(id)));
        assert forall|names: Seq<Seq<char>>| is_beside(base, dirs, names) implies
            #[trigger] same_file(t, u, names) by {
            assert(is_beside(base, shorter, names)) by {
                assert forall|k: int| 0 < k <= shorter.len() implies names != base
                    + #[trigger] shorter.take(k) by {
                    assert(shorter.take(k) =~= dirs.take(k));
                }
            }
            assert(same_file(t, before, names));
            assert(dirs.take(dirs.len() as int) =~= dirs);
            assert(names != whole);
            lemma_others_followed(before, u, above, name, id, names);
            lemma_row_beside(before, u, whole, id, names);
        }
    }
}

/// A row that other names lead to is not the one that was observed.
proof fn lemma_row_beside(
    t: Tables,
    u: Tables,
    whole: Seq<Seq<char>>,
    id: FileId,
    names: Seq<Seq<char>>,
)
    requires
        t.wf(),
        u.wf(),
        follow(u, whole) == Some(Some(id)),
        follow(u, names) == follow(t, names),
        names != whole,
        forall|x: FileId| t.has_file(x) && x != id ==> #[trigger] u.file(x) == t.file(x),
    ensures
        same_file(t, u, names),
{
    if let Some(Some(x)) = follow(t, names) {
        lemma_followed(t, names);
        if x == id {
            lemma_followed_by_one(u, names, whole);
        }
    }
}

/// What there is to say of an entry that was seen, judged by what names led to.
pub open spec fn kind_at(t: Tables, names: Seq<Seq<char>>, stat: Stat) -> Option<
    crate::events::EventKind,
> {
    crate::scan::change_kind(
        match live_at(t, names) {
            Some(id) => Some(t.file(id)),
            None => None,
        },
        stat,
    )
}

/// What observing an entry below a root does to what names lead to, and what it
/// says of the entry.
pub(crate) proof fn lemma_observed(
    t: Tables,
    base: Seq<Seq<char>>,
    root_id: FileId,
    dirs: Seq<Seq<char>>,
    name: Seq<char>,
    stat: Stat,
)
    requires
        t.wf(),
        t.room_for(dirs.len() + 1),
        parents_exist(t),
        follow(t, base) == Some(Some(root_id)),
    ensures
        ({
            let (u, id, kind) = observe(t, root_id, dirs, name, stat);
            let whole = base + dirs.push(name);
            &&& u.wf()
            &&& parents_exist(u)
            &&& kind == kind_at(t, whole, stat)
            &&& follow(u, whole) == Some(Some(id))
            &&& follow(t, whole) matches Some(Some(x)) ==> x == id
            &&& forall|names: Seq<Seq<char>>|
                is_beside(base, dirs.push(name), names) ==> #[trigger] same_file(t, u, names)
        }),
{
    let all = dirs.push(name);
    let whole = base + all;
    let before_last = base + dirs;
    lemma_dirs_followed(t, base, dirs);
    let (above, parent) = dir_chain(t, Some(root_id), dirs);
    assert(before_last.push(name) =~= whole);
    assert(whole.drop_last() =~= before_last);
    lemma_followed(above, before_last);
    lemma_place(above, parent, name, stat.is_dir, recorded_size(stat), stat.mtime_unix);
    let (u, id, kind) = observe(t, root_id, dirs, name, stat);
    assert(before_last != whole);
    lemma_others_followed(above, u, before_last, name, id, before_last);
    assert(follow(u, whole) == Some(Some(id)));
    assert(is_beside(base, dirs, whole)) by {
        assert forall|k: int| 0 < k <= dirs.len() implies whole != base + #[trigger] dirs.take(
            k,
        ) by {
            assert(whole.len() != (base + dirs.take(k)).len());
        }
    }
    assert(same_file(t, above, whole));
    assert forall|names: Seq<Seq<char>>| is_beside(base, all, names) implies #[trigger] same_file(
        t,
        u,
        names,
    ) by {
        assert(is_beside(base, dirs, names)) by {
            assert forall|k: int| 0 < k <= dirs.len() implies names != base + #[trigger] dirs.take(
                k,
            ) by {
                assert(dirs.take(k) =~= all.take(k));
            }
        }
        assert(same_file(t, above, names));
        assert(all.take(all.len() as int) =~= all);
        assert(names != whole);
        lemma_others_followed(above, u, before_last, name, id, names);
        lemma_row_beside(above, u, whole, id, names);
    }
}

} // verus!
