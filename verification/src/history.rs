//! What recording a change does to what is known at a path.
//!
//! Paths are told by their names here: `joined(names)` is the path of those names, and
//! `live_at(t, names)` the file that is known there.
use vstd::prelude::*;

use crate::events::{previous_path_of, EventKind, NewEvent};
use crate::fspath::{
    a_path_of_names_has_them_for_parts, are_names, components_of, dirs_below, is_under, joined,
    joining_and_splitting_agree, what_lies_between_two_paths,
};
use crate::lookup::{
    is_beside, lemma_dirs_followed, lemma_followed, lemma_led_is_followed, lemma_observed, live_at,
    parents_exist, same_file,
};
use crate::paths::{
    at_place, chosen, dir_chain, intern, interning_is_stable, is_chosen, lemma_dir_chain,
    lemma_index_of, path_of, MAX_DEPTH,
};
use crate::record::{
    a_move_takes_along_what_is_below, a_moved_file_tells_where_it_was, excluded, follow,
    hangs_below, is_owner, is_plan, lemma_names_hanging, lemma_names_led, move_recorded, owner_of,
    path_recorded, plan_recorded, queued, removal_recorded, Look, Plan, Recorded,
};
use crate::rescan::{
    keeps_alive, leads_to, lemma_chain_leads, lemma_dirs_below, lemma_leads_to_stays, lemma_observe,
};
use crate::scan::{is_left_out, is_listed, observe, ScanOptions, Stat, Walked};
use crate::store::{FileId, FileRow, Tables};
use crate::watch::ChangeView;

verus! {

/// Whether the path of `names` is owned by the root that is the path of `top`.
pub open spec fn is_owned(roots: Seq<String>, top: Seq<Seq<char>>, names: Seq<Seq<char>>) -> bool {
    &&& are_names(top)
    &&& are_names(names)
    &&& 0 < top.len() < names.len()
    &&& owner_of(roots, joined(names)) == Some(joined(top))
}

// Roots.

/// The root that owns a path is one of the roots, contains the path, and is no shorter
/// than any other that contains it; only a path that no root contains has none.
pub proof fn the_longest_root_owns_a_path(roots: Seq<String>, path: Seq<char>, j: int)
    requires
        0 <= j < roots.len(),
    ensures
        is_under(roots[j]@, path) ==> owner_of(roots, path) is Some,
        owner_of(roots, path) matches Some(owner) ==> {
            &&& exists|i: int| 0 <= i < roots.len() && (#[trigger] roots[i])@ == owner
            &&& is_under(owner, path)
            &&& is_under(roots[j]@, path) ==> vstd::utf8::encode_utf8(roots[j]@).len() as usize
                <= vstd::utf8::encode_utf8(owner).len() as usize
        },
{
    if let Some(owner) = owner_of(roots, path) {
        let i = choose|i: int| is_owner(roots, path, i);
        assert(roots[i]@ == owner);
    } else if is_under(roots[j]@, path) {
        let best = lemma_some_owner(roots, path, roots.len(), j);
        assert(is_owner(roots, path, best));
    }
}

proof fn lemma_some_owner(roots: Seq<String>, path: Seq<char>, n: nat, j: int) -> (best: int)
    requires
        n <= roots.len(),
        0 <= j < n,
        is_under(roots[j]@, path),
    ensures
        0 <= best < n,
        is_under(roots[best]@, path),
        forall|k: int|
            0 <= k < n && is_under((#[trigger] roots[k])@, path) ==> crate::record::root_len(
                roots[k]@,
            ) < crate::record::root_len(roots[best]@) || (crate::record::root_len(roots[k]@)
                == crate::record::root_len(roots[best]@) && k <= best),
    decreases n,
{
    if exists|k: int| 0 <= k < n - 1 && is_under((#[trigger] roots[k])@, path) {
        let k = choose|k: int| 0 <= k < n - 1 && is_under((#[trigger] roots[k])@, path);
        let best = lemma_some_owner(roots, path, (n - 1) as nat, k);
        if is_under(roots[n - 1]@, path) && crate::record::root_len(roots[n - 1]@)
            >= crate::record::root_len(roots[best]@) {
            n - 1
        } else {
            best
        }
    } else {
        n - 1
    }
}

/// A path is left alone where one of its names is that of a directory that is not
/// indexed, and only there.
pub proof fn what_is_not_indexed_is_told_by_name(names: Seq<Seq<char>>, skip_dirs: Seq<String>)
    requires
        are_names(names),
    ensures
        excluded(joined(names), skip_dirs) <==> exists|k: int, i: int|
            0 <= k < names.len() && 0 <= i < skip_dirs.len() && #[trigger] names[k] == (
            #[trigger] skip_dirs[i])@,
{
    a_path_of_names_has_them_for_parts(names);
    if excluded(joined(names), skip_dirs) {
        let k = choose|k: int|
            0 <= k < names.len() && crate::fspath::is_normal(names[k]) && #[trigger] is_listed(
                skip_dirs,
                names[k],
            );
        let i = choose|i: int| 0 <= i < skip_dirs.len() && (#[trigger] skip_dirs[i])@ == names[k];
        assert(names[k] == skip_dirs[i]@);
    }
    if exists|k: int, i: int|
        0 <= k < names.len() && 0 <= i < skip_dirs.len() && #[trigger] names[k] == (
        #[trigger] skip_dirs[i])@ {
        let (k, i) = choose|k: int, i: int|
            0 <= k < names.len() && 0 <= i < skip_dirs.len() && #[trigger] names[k] == (
            #[trigger] skip_dirs[i])@;
        assert(crate::fspath::is_component_name(names[k]));
        assert(is_listed(skip_dirs, names[k]));
    }
}

// What was seen.

/// An event about a file that came into being or changed.
pub open spec fn plain_event(id: FileId, kind: EventKind, at: i64, size: Option<i64>) -> NewEvent {
    NewEvent {
        file_id: id,
        kind,
        at_unix_ms: at,
        size_bytes: size,
        prev_parent_id: None,
        prev_component_id: None,
    }
}

/// A file that is found at a path is known there from then on, with the size and the time
/// it was found with. Where none was known there, the event says that it was created;
/// where one was known otherwise, it is that file and the event says that it was modified;
/// where it was known just so, nothing is recorded. A directory is known in the same way,
/// without a size, and no event ever tells of it. Nothing changes at any path that is not
/// above it.
pub proof fn a_file_that_is_found_is_known_at_its_path(
    t: Tables,
    roots: Seq<String>,
    top: Seq<Seq<char>>,
    names: Seq<Seq<char>>,
    stat: Stat,
    at: i64,
)
    requires
        t.wf(),
        parents_exist(t),
        t.room_for(names.len() + 1),
        is_owned(roots, top, names),
        names.len() <= MAX_DEPTH,
    ensures
        path_recorded(t, roots, joined(names), Look::Found(stat), at) matches Some(recorded) && {
            let after = recorded.tables;
            let size = if stat.is_dir {
                None
            } else {
                Some(stat.len as i64)
            };
            &&& live_at(after, names) matches Some(id) && {
                &&& path_of(after, id) == joined(names)
                &&& after.file(id).size_bytes == size
                &&& after.file(id).mtime_unix == stat.mtime_unix
                &&& match live_at(t, names) {
                    Some(known) => {
                        &&& id == known
                        &&& if stat.is_dir || (t.file(known).size_bytes == size && t.file(
                            known,
                        ).mtime_unix == stat.mtime_unix) {
                            after.events == t.events && recorded.file is None
                        } else {
                            &&& after.events == t.events.push(
                                plain_event(id, EventKind::Modified, at, size),
                            )
                            &&& recorded.file == Some(id)
                        }
                    },
                    None => if stat.is_dir {
                        after.events == t.events && recorded.file is None
                    } else {
                        &&& after.events == t.events.push(
                            plain_event(id, EventKind::Created, at, size),
                        )
                        &&& recorded.file == Some(id)
                    },
                }
            }
            &&& forall|other: Seq<Seq<char>>|
                other.len() > 0 && !other.is_prefix_of(names) ==> #[trigger] live_at(after, other)
                    == live_at(t, other)
        },
{
    let root = joined(top);
    let path = joined(names);
    lemma_owner_contains(roots, path);
    what_lies_between_two_paths(top, names);
    a_path_of_names_has_them_for_parts(names);
    joining_and_splitting_agree(top);
    let dirs = dirs_below(root, path);
    let name = names.last();
    let nothing = Seq::<Seq<char>>::empty();
    // the root
    lemma_dir_chain(t, top);
    let (rooted, found) = dir_chain(t, None, top);
    let root_id = found->0;
    lemma_chain_leads(rooted, root_id, top);
    lemma_dirs_followed(t, nothing, top);
    assert(nothing + top =~= top);
    assert forall|other: Seq<Seq<char>>|
        other.len() > 0 && !other.is_prefix_of(names) implies #[trigger] is_beside(
        nothing,
        top,
        other,
    ) by {
        assert forall|k: int| 0 < k <= top.len() implies other != nothing + #[trigger] top.take(
            k,
        ) by {
            assert(nothing + top.take(k) =~= names.take(k));
            if other == names.take(k) {
                assert(other.is_prefix_of(names));
            }
        }
    }
    assert(is_beside(nothing, top, names)) by {
        assert forall|k: int| 0 < k <= top.len() implies names != nothing + #[trigger] top.take(
            k,
        ) by {
            assert((nothing + top.take(k)).len() == k);
        }
    }
    assert(same_file(t, rooted, names));
    // the entry
    lemma_led_is_followed(rooted, top, root_id);
    lemma_observe(rooted, top, root_id, dirs, name, stat);
    lemma_observed(rooted, top, root_id, dirs, name, stat);
    let (u, id, kind) = observe(rooted, root_id, dirs, name, stat);
    lemma_led_is_followed(u, names, id);
    lemma_names_led(u, names, id, MAX_DEPTH as nat);
    assert(names.reverse().reverse() =~= names);
    let recorded = path_recorded(t, roots, path, Look::Found(stat), at)->0;
    let after = recorded.tables;
    lemma_only_rows_count(u, after, names);
    lemma_same_path(u, after, id);
    assert forall|other: Seq<Seq<char>>|
        other.len() > 0 && !other.is_prefix_of(names) implies #[trigger] live_at(after, other)
        == live_at(t, other) by {
        assert(is_beside(nothing, top, other));
        assert(same_file(t, rooted, other));
        assert(is_beside(top, dirs.push(name), other)) by {
            let all = dirs.push(name);
            assert forall|k: int| 0 < k <= all.len() implies other != top + #[trigger] all.take(
                k,
            ) by {
                assert(top + all.take(k) =~= names.take(top.len() + k));
                if other == names.take(top.len() + k) {
                    assert(other.is_prefix_of(names));
                }
            }
        }
        assert(same_file(rooted, u, other));
        lemma_only_rows_count(u, after, other);
    }
}

/// The owner of a path contains it.
proof fn lemma_owner_contains(roots: Seq<String>, path: Seq<char>)
    requires
        owner_of(roots, path) is Some,
    ensures
        is_under(owner_of(roots, path)->0, path),
{
    let i = choose|i: int| is_owner(roots, path, i);
}

/// What names lead to is told by the rows and the components alone.
proof fn lemma_only_rows_count(t: Tables, u: Tables, names: Seq<Seq<char>>)
    requires
        u.files == t.files,
        u.components == t.components,
    ensures
        follow(u, names) == follow(t, names),
        live_at(u, names) == live_at(t, names),
    decreases names.len(),
{
    if names.len() > 0 {
        lemma_only_rows_count(t, u, names.drop_last());
    }
}

pub(crate) proof fn lemma_same_path(t: Tables, u: Tables, id: FileId)
    requires
        u.files == t.files,
        u.components == t.components,
    ensures
        path_of(u, id) == path_of(t, id),
{
    lemma_same_upwards(t, u, id, MAX_DEPTH as nat);
}

proof fn lemma_same_upwards(t: Tables, u: Tables, id: FileId, depth: nat)
    requires
        u.files == t.files,
        u.components == t.components,
    ensures
        crate::paths::names_upwards(u, id, depth) == crate::paths::names_upwards(t, id, depth),
    decreases depth,
{
    if depth > 0 && t.has_file(id) {
        if let Some(p) = t.file(id).parent_id {
            lemma_same_upwards(t, u, p, (depth - 1) as nat);
        }
    }
}

/// A path that could not be looked at is left alone, and so is one that no root contains.
pub proof fn what_cannot_be_looked_at_is_left_alone(
    t: Tables,
    roots: Seq<String>,
    path: Seq<char>,
    look: Look,
    at: i64,
)
    requires
        look is Unreadable || forall|j: int|
            0 <= j < roots.len() ==> !is_under((#[trigger] roots[j])@, path),
    ensures
        path_recorded(t, roots, path, look, at) == Some(Recorded { tables: t, file: None }),
{
    if owner_of(roots, path) is Some {
        let i = choose|i: int| is_owner(roots, path, i);
    }
}

// What is gone.

/// A file that is gone keeps its row, which says since when, and one event tells of it;
/// nothing else changes. Where no file is known at the path, nothing changes at all. It
/// makes no difference whether the removal was reported or seen.
pub proof fn a_file_that_is_gone_is_marked_so(
    t: Tables,
    roots: Seq<String>,
    top: Seq<Seq<char>>,
    names: Seq<Seq<char>>,
    at: i64,
)
    requires
        t.wf(),
        is_owned(roots, top, names),
    ensures
        removal_recorded(t, roots, joined(names), at) matches Some(recorded) && {
            let after = recorded.tables;
            &&& match live_at(t, names) {
                Some(id) => {
                    &&& after.files == t.files.update(
                        id - 1,
                        FileRow { deleted_at: Some(at), ..t.file(id) },
                    )
                    &&& after.events == t.events.push(
                        plain_event(id, EventKind::Deleted, at, None),
                    )
                    &&& after == (Tables { files: after.files, events: after.events, ..t })
                    &&& recorded.file == Some(id)
                },
                None => after == t && recorded.file is None,
            }
            &&& path_recorded(t, roots, joined(names), Look::Gone, at) == Some(
                Recorded { tables: after, file: None },
            )
        },
{
    let path = joined(names);
    lemma_owner_contains(roots, path);
    what_lies_between_two_paths(top, names);
    a_path_of_names_has_them_for_parts(names);
    joining_and_splitting_agree(top);
    let dirs = components_of(joined(top)) + dirs_below(joined(top), path);
    assert(dirs =~= names.drop_last());
    if live_at(t, names) is Some {
        lemma_followed(t, names);
    }
}

// What moved.

/// A file or a directory that moves is the same one at its new path: the row that was
/// known at the old path is known at the new one, and everything that hangs below it
/// moves along. The move of a file is an event that tells where it was. It takes that
/// nothing is moved into itself.
pub proof fn what_moves_is_known_at_its_new_path(
    t: Tables,
    roots: Seq<String>,
    from_top: Seq<Seq<char>>,
    from: Seq<Seq<char>>,
    to_top: Seq<Seq<char>>,
    to: Seq<Seq<char>>,
    id: FileId,
    stat: Stat,
    at: i64,
    below: Seq<Seq<char>>,
    x: FileId,
)
    requires
        t.wf(),
        t.room_for(to.len() + 1),
        is_owned(roots, from_top, from),
        is_owned(roots, to_top, to),
        leads_to(t, from, id),
        !from.is_prefix_of(to.drop_last()),
        hangs_below(t, id, below, x),
        from.len() + below.len() <= MAX_DEPTH,
        to.len() + below.len() <= MAX_DEPTH,
    ensures
        move_recorded(t, roots, joined(from), joined(to), Look::Found(stat), at) matches Some(
            recorded,
        ) && {
            let after = recorded.tables;
            let event = after.events.last();
            &&& path_of(t, x) == joined(from + below)
            &&& path_of(after, x) == joined(to + below)
            &&& path_of(after, id) == joined(to)
            &&& after.has_file(id)
            &&& after.extraction_queue.len() == after.files.len()
            &&& after.file(id).deleted_at is None
            &&& after.file(id).is_dir == t.file(id).is_dir
            &&& after.file(id).mtime_unix == stat.mtime_unix
            &&& after.file(id).size_bytes == (if stat.is_dir {
                None
            } else {
                Some(stat.len as i64)
            })
            &&& recorded.file == (if t.file(id).is_dir {
                None
            } else {
                Some(id)
            })
            &&& t.events.is_prefix_of(after.events)
            &&& !t.file(id).is_dir ==> {
                &&& after.events.len() > t.events.len()
                &&& event.file_id == id
                &&& event.kind == EventKind::Renamed
                &&& event.at_unix_ms == at
                &&& event.size_bytes == after.file(id).size_bytes
                &&& previous_path_of(after, event.prev_parent_id, event.prev_component_id)
                    == Some(joined(from))
            }
        },
{
    lemma_owner_contains(roots, joined(from));
    lemma_owner_contains(roots, joined(to));
    what_lies_between_two_paths(from_top, from);
    what_lies_between_two_paths(to_top, to);
    a_path_of_names_has_them_for_parts(from);
    a_path_of_names_has_them_for_parts(to);
    joining_and_splitting_agree(from_top);
    joining_and_splitting_agree(to_top);
    let place = components_of(joined(from_top)) + dirs_below(joined(from_top), joined(from));
    assert(place =~= from.drop_last());
    lemma_led_is_followed(t, from, id);
    // where it goes
    let dirs = dirs_below(joined(to_top), joined(to));
    let above = to.drop_last();
    let nothing = Seq::<Seq<char>>::empty();
    lemma_dirs_below(t, nothing, None, to_top);
    let (placed, to_id) = dir_chain(t, None, to_top);
    assert(nothing + to_top =~= to_top);
    lemma_dirs_below(placed, to_top, to_id, dirs);
    let (held, parent) = dir_chain(placed, to_id, dirs);
    assert(to_top + dirs =~= above);
    let (named, component) = intern(held, to.last());
    interning_is_stable(held, to.last());
    assert(named.has_component(component) && named.components[component - 1] == to.last()) by {
        if held.components.contains(to.last()) {
            let k = choose|k: int|
                0 <= k < held.components.len() && held.components[k] == to.last();
            lemma_index_of(held.components, to.last(), k);
        }
    }
    assert(keeps_alive(held, named));
    lemma_leads_to_stays(t, placed, from, id);
    lemma_leads_to_stays(placed, held, from, id);
    lemma_leads_to_stays(held, named, from, id);
    lemma_leads_to_stays(held, named, above, parent->0);
    lemma_hanging_stays(t, placed, id, below, x);
    lemma_hanging_stays(placed, held, id, below, x);
    lemma_hanging_stays(held, named, id, below, x);
    assert(above.push(to.last()) =~= to);
    a_moved_file_tells_where_it_was(named, id, from, parent->0, above, component, stat, at);
    a_move_takes_along_what_is_below(
        named,
        id,
        from,
        parent->0,
        above,
        component,
        stat,
        at,
        x,
        below,
    );
    let depth = MAX_DEPTH as nat;
    lemma_names_led(t, from, id, (depth - below.len()) as nat);
    lemma_names_hanging(t, t, id, from, x, below, depth);
    assert((from + below).reverse().reverse() =~= from + below);
    lemma_chain_keeps_dirs(t, None, to_top);
    lemma_chain_keeps_dirs(placed, to_id, dirs);
}

/// What hangs below a row still does where every row keeps its place.
proof fn lemma_hanging_stays(
    t: Tables,
    u: Tables,
    id: FileId,
    names: Seq<Seq<char>>,
    x: FileId,
)
    requires
        t.wf(),
        keeps_alive(t, u),
        hangs_below(t, id, names, x),
    ensures
        hangs_below(u, id, names, x),
    decreases names.len(),
{
    if names.len() > 0 {
        assert(at_place(u.files[x - 1], t.file(x).parent_id, t.file(x).component_id));
        assert(t.has_component(t.files[x - 1].component_id));
        assert(u.components[t.file(x).component_id - 1] == t.components[t.file(x).component_id
            - 1]);
        lemma_hanging_stays(t, u, id, names.drop_last(), t.file(x).parent_id->0);
    }
}

/// Observing directories makes no file of a directory, nor the other way round.
proof fn lemma_chain_keeps_dirs(t: Tables, start: Option<FileId>, names: Seq<Seq<char>>)
    requires
        t.files.len() + names.len() <= i64::MAX,
    ensures
        ({
            let u = dir_chain(t, start, names).0;
            &&& t.files.len() <= u.files.len() <= t.files.len() + names.len()
            &&& forall|i: int|
                0 <= i < t.files.len() ==> (#[trigger] u.files[i]).is_dir == t.files[i].is_dir
        }),
    decreases names.len(),
{
    if names.len() > 0 {
        lemma_chain_keeps_dirs(t, start, names.drop_last());
        let (before, parent) = dir_chain(t, start, names.drop_last());
        let (interned, component) = intern(before, names.last());
        if let Some(i) = chosen(interned.files, parent, component) {
            assert(is_chosen(interned.files, parent, component, i));
        }
        let u = dir_chain(t, start, names).0;
        assert forall|i: int| 0 <= i < t.files.len() implies (#[trigger] u.files[i]).is_dir
            == t.files[i].is_dir by {
            assert(before.files[i].is_dir == t.files[i].is_dir);
        }
    }
}

/// A move of which only one end lies under a root is an arrival or a departure, like a
/// path that was found or one that is gone. So is one whose new end is gone again, or whose
/// old end was never known. A new end that cannot be looked at is left alone.
pub proof fn a_move_with_one_end_is_an_arrival_or_a_departure(
    t: Tables,
    roots: Seq<String>,
    from: Seq<char>,
    to: Seq<char>,
    stat: Stat,
    at: i64,
)
    ensures
        owner_of(roots, from) is None && owner_of(roots, to) is Some ==> move_recorded(
            t,
            roots,
            from,
            to,
            Look::Found(stat),
            at,
        ) == path_recorded(t, roots, to, Look::Found(stat), at),
        owner_of(roots, to) is None ==> forall|look: Look| #[trigger]
            move_recorded(t, roots, from, to, look, at) == path_recorded(
                t,
                roots,
                from,
                Look::Gone,
                at,
            ),
        move_recorded(t, roots, from, to, Look::Gone, at) == path_recorded(
            t,
            roots,
            from,
            Look::Gone,
            at,
        ),
        owner_of(roots, to) is Some ==> move_recorded(t, roots, from, to, Look::Unreadable, at)
            == Some(Recorded { tables: t, file: None }),
{
}

/// A move from a path at which nothing is known is an arrival.
pub proof fn a_move_from_nowhere_is_an_arrival(
    t: Tables,
    roots: Seq<String>,
    from_top: Seq<Seq<char>>,
    from: Seq<Seq<char>>,
    to_top: Seq<Seq<char>>,
    to: Seq<Seq<char>>,
    stat: Stat,
    at: i64,
)
    requires
        is_owned(roots, from_top, from),
        is_owned(roots, to_top, to),
        live_at(t, from) is None,
    ensures
        move_recorded(t, roots, joined(from), joined(to), Look::Found(stat), at) == path_recorded(
            t,
            roots,
            joined(to),
            Look::Found(stat),
            at,
        ),
{
    lemma_owner_contains(roots, joined(from));
    what_lies_between_two_paths(from_top, from);
    a_path_of_names_has_them_for_parts(from);
    joining_and_splitting_agree(from_top);
    joining_and_splitting_agree(to_top);
    let place = components_of(joined(from_top)) + dirs_below(joined(from_top), joined(from));
    assert(place =~= from.drop_last());
}

// What is done about it.

/// What is reported of a path is recorded at that path. Where one end of a move is not
/// indexed, the other end came into being or went away; where neither is, nothing is done.
pub proof fn what_is_reported_is_recorded_at_its_path(
    t: Tables,
    roots: Seq<String>,
    skip_dirs: Seq<String>,
    change: ChangeView,
    plan: Plan,
    look: Look,
    at: i64,
)
    requires
        is_plan(change, skip_dirs, plan),
    ensures
        ({
            let done = plan_recorded(t, roots, plan, look, at);
            let untouched = Some(Recorded { tables: t, file: None });
            match change {
                ChangeView::Touched(path) => done == (if excluded(path, skip_dirs) {
                    untouched
                } else {
                    path_recorded(t, roots, path, look, at)
                }),
                ChangeView::Removed(path) => done == (if excluded(path, skip_dirs) {
                    untouched
                } else {
                    path_recorded(t, roots, path, Look::Gone, at)
                }),
                ChangeView::Renamed { from, to } => {
                    &&& excluded(from, skip_dirs) && excluded(to, skip_dirs) ==> done == untouched
                    &&& excluded(from, skip_dirs) && !excluded(to, skip_dirs) ==> done
                        == path_recorded(t, roots, to, look, at)
                    &&& !excluded(from, skip_dirs) && excluded(to, skip_dirs) ==> done
                        == path_recorded(t, roots, from, Look::Gone, at)
                    &&& !excluded(from, skip_dirs) && !excluded(to, skip_dirs) ==> done
                        == move_recorded(t, roots, from, to, look, at)
                },
                ChangeView::Overflowed => done == untouched && plan is Rescan,
            }
        }),
{
}

/// A file that was created, modified or moved waits to be extracted from then on, with the
/// attempts it had. Nothing else changes by that, and nothing at all where no file was.
pub proof fn a_changed_file_waits_to_be_extracted(recorded: Recorded, at: i64)
    requires
        recorded.tables.wf(),
        recorded.file matches Some(id) ==> recorded.tables.has_file(id),
    ensures
        recorded.file is None ==> queued(recorded, at) == recorded.tables,
        recorded.file matches Some(id) ==> {
            let t = recorded.tables;
            let u = queued(recorded, at);
            let place = u.extraction_queue[id - 1];
            &&& place is Some && place->0.queued_at_unix == at
            &&& place->0.attempt_count == (if t.extraction_queue[id - 1] is Some {
                t.extraction_queue[id - 1]->0.attempt_count
            } else {
                0
            })
            &&& forall|k: int|
                0 <= k < t.files.len() && k != id - 1 ==> #[trigger] u.extraction_queue[k]
                    == t.extraction_queue[k]
            &&& u == (Tables { extraction_queue: u.extraction_queue, ..t })
        },
{
}

/// A walk leaves out a directory by its name, with everything below it, wherever below the
/// root it lies; the root itself is never left out, and a file never by its own name.
pub proof fn what_lies_in_a_left_out_directory_is_left_out(
    top: Seq<Seq<char>>,
    names: Seq<Seq<char>>,
    item: Walked,
    options: ScanOptions,
)
    requires
        are_names(top),
        are_names(names),
        0 < top.len() < names.len(),
        top.is_prefix_of(names),
        item matches Walked::Entry { path, depth, .. } && path@ == joined(names) && depth > 0,
    ensures
        is_left_out(joined(top), item, options) <==> (item->is_dir && is_listed(
            options.skip_dirs@,
            names.last(),
        )) || exists|k: int|
            top.len() <= k < names.len() - 1 && is_listed(options.skip_dirs@, #[trigger] names[k]),
{
    what_lies_between_two_paths(top, names);
    a_path_of_names_has_them_for_parts(names);
    let between = dirs_below(joined(top), joined(names));
    if exists|k: int|
        top.len() <= k < names.len() - 1 && is_listed(options.skip_dirs@, #[trigger] names[k]) {
        let k = choose|k: int|
            top.len() <= k < names.len() - 1 && is_listed(options.skip_dirs@, #[trigger] names[k]);
        assert(between[k - top.len()] == names[k]);
    }
    if exists|k: int|
        0 <= k < between.len() && is_listed(options.skip_dirs@, #[trigger] between[k]) {
        let k = choose|k: int|
            0 <= k < between.len() && is_listed(options.skip_dirs@, #[trigger] between[k]);
        assert(between[k] == names[top.len() + k]);
    }
}

} // verus!
