//! Why the watch and a scan tell the same.
//!
//! A path that the watch reports is recorded as a scan would record it: an entry
//! that is as it was gives nothing, and one that has changed gives one event,
//! the one that scanning its root again would give.
use vstd::prelude::*;

use crate::events::{with_events, EventKind};
use crate::fspath::{
    components_of, dirs_below, every_root_names_a_path_alike, file_name_of, lies_in, parts_of,
};
use crate::lookup::{
    lemma_dirs_followed, lemma_followed, lemma_led_is_followed, lemma_observed, parents_exist,
};
use crate::paths::{chosen, dir_chain, intern, is_chosen, lemma_dir_chain};
use crate::record::{
    change_room, dirs_to, follow, is_owner, lemma_entry_place, lemma_most_components, live_entry,
    owner_of, path_recorded, plan_recorded, plan_room, removed, renamed, root_refused, tombstoned,
    touched, Look, Plan,
};
use crate::rescan::{
    is_led, is_recorded, is_tree, leads_to, lemma_chain_leads, lemma_events_leave_tree,
    lemma_leads_to_one, lemma_leads_to_stays, lemma_observe, lemma_observe_again, lemma_parts_bound,
    lemma_root_again, lemma_root_leaves_settled, lemma_settled_kind, lemma_told, lemma_walk_room,
    lemma_walk_settles, names_below, settled, stat_of,
};
use crate::resume::{
    entries_in, is_news, lemma_limit, lemma_news_range, lemma_part_is_tree, lemma_scan_tells,
    lemma_seen, lemma_settled_is_no_news, lemma_within, news, tells, unlimited, within,
};
use crate::scan::{
    entry_event, entry_name, fresh_scan, limit_reached, observe, recorded_size, scan_steps,
    step_room, told, walk_room, ScanOptions, ScanState, Stat, Walked,
};
use crate::store::{FileId, Tables};

verus! {

/// Recording a touched path is scanning its root where the walk yields that one
/// entry.
pub proof fn a_touch_is_a_scan_of_one_entry(
    t: Tables,
    root: Seq<char>,
    item: Walked,
    options: ScanOptions,
    at: i64,
)
    requires
        is_recorded(item),
        file_name_of(item->path@) is Some,
        options.max_entries != Some(0u64),
    ensures
        ({
            let (start, id) = dir_chain(t, None, components_of(root));
            let (walked, state) = scan_steps(
                start,
                fresh_scan(root, id->0),
                seq![item],
                options,
                at,
            );
            walked == touched(
                t,
                root,
                item->path@,
                stat_of(item),
                at,
            ).tables
        }),
{
    let (start, id) = dir_chain(t, None, components_of(root));
    let s = fresh_scan(root, id->0);
    assert(seq![item].drop_last() =~= Seq::<Walked>::empty());
    assert(seq![item].last() == item);
    reveal_with_fuel(scan_steps, 2);
    let (walked, state) = scan_steps(start, s, seq![item], options, at);
    assert(walked =~= touched(
        t,
        root,
        item->path@,
        stat_of(item),
        at,
    ).tables);
}

/// The tables after a scan of `root`.
pub open spec fn scanned(
    t: Tables,
    root: Seq<char>,
    items: Seq<Walked>,
    options: ScanOptions,
    at: i64,
) -> Tables {
    let (start, id) = dir_chain(t, None, components_of(root));
    scan_steps(start, fresh_scan(root, id->0), items, options, at).0
}

/// Whether a file looks as it did.
pub open spec fn looks_same(seen: Stat, stat: Stat) -> bool {
    recorded_size(stat) == recorded_size(seen) && stat.mtime_unix == seen.mtime_unix
}

/// Touching a file that is settled adds no row. It records nothing where the file
/// looks as it did, and otherwise one event, that the file was modified.
proof fn lemma_touch_settled(
    t: Tables,
    root: Seq<char>,
    root_id: FileId,
    path: Seq<char>,
    seen: Stat,
    stat: Stat,
    at: i64,
    id: FileId,
)
    requires
        t.wf(),
        leads_to(t, components_of(root), root_id),
        t.room_for(dirs_below(root, path).len() + 1),
        file_name_of(path) is Some,
        settled(
            t,
            components_of(root),
            dirs_below(root, path).push(entry_name(path)),
            seen,
        ),
        leads_to(t, components_of(root) + dirs_below(root, path).push(entry_name(path)), id),
        !stat.is_dir,
    ensures
        ({
            let recorded = touched(t, root, path, stat, at);
            &&& recorded.tables.files.len() == t.files.len()
            &&& recorded.tables.components == t.components
            &&& if looks_same(seen, stat) {
                recorded.tables.events == t.events && recorded.file is None
            } else {
                recorded.tables.events == t.events.push(
                    entry_event(id, EventKind::Modified, at, recorded_size(stat)),
                ) && recorded.file == Some(id)
            }
        }),
{
    let base = components_of(root);
    let dirs = dirs_below(root, path);
    let name = entry_name(path);
    lemma_root_again(t, base, root_id);
    lemma_root_leaves_settled(t, base, root_id, dirs.push(name), seen);
    let rooted = dir_chain(t, None, base).0;
    lemma_leads_to_stays(t, rooted, base + dirs.push(name), id);
    lemma_settled_kind(rooted, base, root_id, dirs, name, seen, stat);
    lemma_observe_again(rooted, base, root_id, dirs, name, stat, id);
    lemma_observe(rooted, base, root_id, dirs, name, stat);
}

/// What a scan leaves behind of a file that it saw.
proof fn lemma_scanned(
    t: Tables,
    root: Seq<char>,
    items: Seq<Walked>,
    options: ScanOptions,
    at: i64,
    i: int,
) -> (r: (FileId, FileId))
    requires
        t.wf(),
        components_of(root).len() > 0,
        t.room_for(components_of(root).len() + walk_room(items)),
        is_tree(root, items),
        items.len() < u64::MAX,
        0 <= i < within(items, options).len() <= items.len(),
        is_recorded(items[i]),
        !stat_of(items[i]).is_dir,
    ensures
        ({
            let base = components_of(root);
            let after = scanned(t, root, items, options, at);
            &&& after.wf()
            &&& leads_to(after, base, r.0)
            &&& settled(after, base, names_below(root, items[i]), stat_of(items[i]))
            &&& leads_to(after, base + names_below(root, items[i]), r.1)
            &&& after.components.len() <= t.components.len() + base.len() + walk_room(items)
            &&& after.files.len() <= t.files.len() + base.len() + walk_room(items)
            &&& after.events.len() <= t.events.len() + base.len() + walk_room(items)
        }),
{
    let base = components_of(root);
    lemma_dir_chain(t, base);
    let (start, id) = dir_chain(t, None, base);
    lemma_chain_leads(start, id->0, base);
    let s = fresh_scan(root, id->0);
    lemma_walk_settles(start, base, s, items, options, at, items.len() as int);
    assert(items.take(items.len() as int) =~= items);
    let after = scan_steps(start, s, items, options, at).0;
    lemma_seen(start, root, id->0, items, options, at, i);
    let whole = names_below(root, items[i]);
    assert(settled(after, base, whole, stat_of(items[i])));
    let file = choose|file: FileId| #[trigger]
        leads_to(after, base + whole, file) && after.file(file).size_bytes == recorded_size(
            stat_of(items[i]),
        ) && after.file(file).mtime_unix == stat_of(items[i]).mtime_unix;
    (id->0, file)
}

/// A file that a scan saw and that the watch reports afterwards: nothing is
/// recorded where it looks as it did, and otherwise one event, that this file was
/// modified, with its new size. No row is added either way. It does not matter
/// whether the scanned root owns the path or one within it does.
pub proof fn a_file_touched_after_a_scan(
    t: Tables,
    root: Seq<char>,
    items: Seq<Walked>,
    options: ScanOptions,
    first: i64,
    i: int,
    roots: Seq<String>,
    stat: Stat,
    at: i64,
)
    requires
        t.wf(),
        components_of(root).len() > 0,
        t.room_for(2 * (components_of(root).len() + walk_room(items))),
        is_tree(root, items),
        items.len() < u64::MAX,
        0 <= i < within(items, options).len() <= items.len(),
        is_recorded(items[i]),
        !stat_of(items[i]).is_dir,
        file_name_of(items[i]->path@) is Some,
        is_recorded_alike(roots, root, items[i]->path@),
        !stat.is_dir,
    ensures
        ({
            let after = scanned(t, root, items, options, first);
            let path = items[i]->path@;
            exists|id: FileId| #[trigger]
                leads_to(after, components_of(root) + names_below(root, items[i]), id) && (
                path_recorded(after, roots, path, Look::Found(stat), at) matches Some(recorded)
                    && recorded.tables.files.len() == after.files.len()
                    && recorded.tables.components == after.components && if looks_same(
                    stat_of(items[i]),
                    stat,
                ) {
                    recorded.tables.events == after.events && recorded.file is None
                } else {
                    recorded.tables.events == after.events.push(
                        entry_event(id, EventKind::Modified, at, recorded_size(stat)),
                    ) && recorded.file == Some(id)
                })
        }),
{
    let (root_id, id) = lemma_scanned(t, root, items, options, first, i);
    let after = scanned(t, root, items, options, first);
    let path = items[i]->path@;
    lemma_step_in_walk(items, i);
    lemma_touch_owned(after, roots, root, root_id, path, stat_of(items[i]), stat, at, id);
}

/// Whether the root that owns a path records it where scanning `root` does: it is
/// that root, or the path lies straight below both of them.
pub open spec fn is_recorded_alike(roots: Seq<String>, root: Seq<char>, path: Seq<char>) -> bool {
    owner_of(roots, path) matches Some(owner) && components_of(owner).len() > 0 && (owner == root
        || (lies_in(root, path) && lies_in(owner, path)))
}

/// Touching a file that is settled, whichever root owns it.
proof fn lemma_touch_owned(
    t: Tables,
    roots: Seq<String>,
    root: Seq<char>,
    root_id: FileId,
    path: Seq<char>,
    seen: Stat,
    stat: Stat,
    at: i64,
    id: FileId,
)
    requires
        t.wf(),
        leads_to(t, components_of(root), root_id),
        t.room_for(parts_of(path).len() + 1),
        file_name_of(path) is Some,
        is_recorded_alike(roots, root, path),
        settled(
            t,
            components_of(root),
            dirs_below(root, path).push(entry_name(path)),
            seen,
        ),
        leads_to(t, components_of(root) + dirs_below(root, path).push(entry_name(path)), id),
        !stat.is_dir,
    ensures
        path_recorded(t, roots, path, Look::Found(stat), at) matches Some(recorded)
            && recorded.tables.files.len() == t.files.len() && recorded.tables.components
            == t.components && if looks_same(seen, stat) {
            recorded.tables.events == t.events && recorded.file is None
        } else {
            recorded.tables.events == t.events.push(
                entry_event(id, EventKind::Modified, at, recorded_size(stat)),
            ) && recorded.file == Some(id)
        },
{
    let owner = owner_of(roots, path)->0;
    let name = entry_name(path);
    let base = components_of(owner);
    let dirs = dirs_below(owner, path);
    lemma_parts_bound(owner, path);
    if owner == root {
        lemma_touch_settled(t, root, root_id, path, seen, stat, at, id);
    } else {
        every_root_names_a_path_alike(root, owner, path);
        let whole = components_of(root) + dirs_below(root, path).push(name);
        assert(whole =~= (components_of(root) + dirs_below(root, path)).push(name));
        assert(whole =~= base + dirs.push(name));
        lemma_above_is_led(t, whole, id, base.len() as int);
        assert(whole.take(base.len() as int) =~= base);
        let owner_id = choose|x: FileId| leads_to(t, base, x);
        lemma_touch_settled(t, owner, owner_id, path, seen, stat, at, id);
    }
}

/// Names that lead to a file lead to the directories above it on the way.
proof fn lemma_above_is_led(t: Tables, names: Seq<Seq<char>>, id: FileId, n: int)
    requires
        leads_to(t, names, id),
        0 < n <= names.len(),
    ensures
        is_led(t, names.take(n)),
    decreases names.len(),
{
    if n == names.len() {
        assert(names.take(n) =~= names);
    } else {
        lemma_above_is_led(t, names.drop_last(), t.file(id).parent_id->0, n);
        assert(names.drop_last().take(n) =~= names.take(n));
    }
}

/// One step of a walk needs no more room than the walk.
proof fn lemma_step_in_walk(items: Seq<Walked>, i: int)
    requires
        0 <= i < items.len(),
    ensures
        step_room(items[i]) <= walk_room(items),
    decreases items.len(),
{
    if i < items.len() - 1 {
        lemma_step_in_walk(items.drop_last(), i);
        assert(items.drop_last()[i] == items[i]);
    }
}

/// Scanning the root again tells of a file that has changed since the scan before
/// just what the watch would have: the same one event, and none where it looks as
/// it did. Where an entry limit stops the scans, it holds of the files that they
/// came to.
pub proof fn a_rescan_tells_what_a_touch_would(
    t: Tables,
    root: Seq<char>,
    items: Seq<Walked>,
    options: ScanOptions,
    first: i64,
    i: int,
    now: Walked,
    roots: Seq<String>,
    at: i64,
)
    requires
        t.wf(),
        parents_exist(t),
        components_of(root).len() > 0,
        t.room_for(3 * (components_of(root).len() + walk_room(items))),
        is_tree(root, items),
        items.len() < u64::MAX,
        0 <= i < within(items, options).len() <= items.len(),
        is_recorded(items[i]),
        !stat_of(items[i]).is_dir,
        file_name_of(items[i]->path@) is Some,
        is_recorded_alike(roots, root, items[i]->path@),
        is_recorded(now),
        now->path == items[i]->path,
        !stat_of(now).is_dir,
    ensures
        ({
            let after = scanned(t, root, items, options, first);
            let path = items[i]->path@;
            path_recorded(after, roots, path, Look::Found(stat_of(now)), at) matches Some(recorded)
                && recorded.tables.events == scanned(
                after,
                root,
                items.update(i, now),
                options,
                at,
            ).events
        }),
{
    let base = components_of(root);
    let whole = names_below(root, items[i]);
    let path = items[i]->path@;
    let seen = stat_of(items[i]);
    let (root_id, id) = lemma_scanned(t, root, items, options, first, i);
    let after = scanned(t, root, items, options, first);
    lemma_step_in_walk(items, i);
    lemma_touch_owned(after, roots, root, root_id, path, seen, stat_of(now), at, id);
    // every other file stands as it is seen again
    let again = items.update(i, now);
    let n = within(items, options).len() as int;
    let part = again.take(n);
    a_scan_keeps_every_parent(t, root, items, options, first);
    lemma_tree_again(root, items, i, now);
    lemma_same_room(items, again);
    lemma_within(items, options);
    lemma_within_again(items, again, options);
    lemma_within(again, options);
    assert(within(again, options) == part);
    let (start, top) = dir_chain(after, None, base);
    lemma_limit(start, root, top->0, again, options, at);
    lemma_walk_room(again, n);
    lemma_part_is_tree(root, again, n);
    lemma_scan_tells(after, root, part, unlimited(options), at, n);
    assert(part.take(n) =~= part);
    let end = scanned(after, root, again, options, at);
    let earlier = after.events.len() as int;
    let indices = news(after, base, root, part);
    assert forall|k: int| 0 <= k < part.len() && k != i implies !is_news(
        after,
        base,
        root,
        #[trigger] part[k],
    ) by {
        if is_recorded(items[k]) && !stat_of(items[k]).is_dir {
            let other = lemma_scanned(t, root, items, options, first, k);
            lemma_settled_is_no_news(after, base, names_below(root, items[k]), stat_of(items[k]));
        }
    }
    lemma_led_is_followed(after, base + whole, id);
    let kept = choose|kept: FileId| #[trigger]
        leads_to(after, base + whole, kept) && after.file(kept).size_bytes == recorded_size(seen)
            && after.file(kept).mtime_unix == seen.mtime_unix;
    lemma_leads_to_one(after, base + whole, kept, id);
    lemma_only_news(after, base, root, part, i);
    lemma_news_range(after, base, root, part);
    if looks_same(seen, stat_of(now)) {
        assert(indices.len() == 0);
        assert(end.events =~= end.events.take(earlier));
    } else {
        assert(indices == seq![i]);
        let event = end.events.skip(earlier)[0];
        assert(tells(after, end, base, root, part[indices[0]], event, at));
        lemma_leads_to_stays(after, end, base + whole, id);
        lemma_end_is_wf(after, root, again, options, at);
        lemma_leads_to_one(end, base + whole, id, event.file_id);
        assert(end.events =~= after.events.push(event));
    }
}

/// Looking at one file again leaves a walk a walk over a tree.
proof fn lemma_tree_again(root: Seq<char>, items: Seq<Walked>, i: int, now: Walked)
    requires
        is_tree(root, items),
        0 <= i < items.len(),
        is_recorded(items[i]),
        !stat_of(items[i]).is_dir,
        is_recorded(now),
        now->path == items[i]->path,
    ensures
        is_tree(root, items.update(i, now)),
{
    let again = items.update(i, now);
    assert forall|k: int, l: int|
        #![trigger again[k], again[l]]
        0 <= k < again.len() && 0 <= l < again.len() && k != l && is_recorded(again[k])
            && is_recorded(again[l]) && !stat_of(again[k]).is_dir implies !names_below(
        root,
        again[k],
    ).is_prefix_of(names_below(root, again[l])) by {
        assert(names_below(root, again[k]) == names_below(root, items[k]));
        assert(names_below(root, again[l]) == names_below(root, items[l]));
        assert(is_recorded(items[k]) && is_recorded(items[l]));
    }
}

/// Walks that yield an entry at the same places meet an entry limit at the same
/// place.
proof fn lemma_within_again(a: Seq<Walked>, b: Seq<Walked>, options: ScanOptions)
    requires
        a.len() == b.len(),
        forall|k: int| 0 <= k < a.len() ==> is_recorded(#[trigger] a[k]) == is_recorded(b[k]),
    ensures
        entries_in(a) == entries_in(b),
        within(a, options).len() == within(b, options).len(),
    decreases a.len(),
{
    if a.len() > 0 {
        let n = a.len() - 1;
        assert(is_recorded(a[n]) == is_recorded(b[n]));
        assert forall|k: int| 0 <= k < a.drop_last().len() implies is_recorded(
            #[trigger] a.drop_last()[k],
        ) == is_recorded(b.drop_last()[k]) by {
            assert(a.drop_last()[k] == a[k]);
        }
        lemma_within_again(a.drop_last(), b.drop_last(), options);
    }
}

/// The tables after a scan are well formed.
proof fn lemma_end_is_wf(
    t: Tables,
    root: Seq<char>,
    items: Seq<Walked>,
    options: ScanOptions,
    at: i64,
)
    requires
        t.wf(),
        components_of(root).len() > 0,
        t.room_for(components_of(root).len() + walk_room(items)),
        is_tree(root, items),
    ensures
        scanned(t, root, items, options, at).wf(),
{
    let base = components_of(root);
    lemma_dir_chain(t, base);
    let (start, id) = dir_chain(t, None, base);
    lemma_chain_leads(start, id->0, base);
    let s = fresh_scan(root, id->0);
    lemma_walk_settles(start, base, s, items, options, at, items.len() as int);
    assert(items.take(items.len() as int) =~= items);
}

/// Walks of the same paths need the same room.
proof fn lemma_same_room(a: Seq<Walked>, b: Seq<Walked>)
    requires
        a.len() == b.len(),
        forall|k: int| 0 <= k < a.len() ==> step_room(#[trigger] a[k]) == step_room(b[k]),
    ensures
        walk_room(a) == walk_room(b),
    decreases a.len(),
{
    if a.len() > 0 {
        let n = a.len() - 1;
        assert(step_room(a[n]) == step_room(b[n]));
        assert forall|k: int| 0 <= k < a.drop_last().len() implies step_room(
            #[trigger] a.drop_last()[k],
        ) == step_room(b.drop_last()[k]) by {
            assert(a.drop_last()[k] == a[k]);
        }
        lemma_same_room(a.drop_last(), b.drop_last());
    }
}

/// Where there is something to say of one entry at most, that is all the news.
proof fn lemma_only_news(
    t: Tables,
    base: Seq<Seq<char>>,
    root: Seq<char>,
    items: Seq<Walked>,
    i: int,
)
    requires
        0 <= i,
        forall|k: int|
            0 <= k < items.len() && k != i ==> !is_news(
                t,
                base,
                root,
                #[trigger] items[k],
            ),
    ensures
        news(t, base, root, items) == if i < items.len() && is_news(
            t,
            base,
            root,
            items[i],
        ) {
            seq![i]
        } else {
            Seq::empty()
        },
    decreases items.len(),
{
    if items.len() > 0 {
        let shorter = items.drop_last();
        let n = items.len() - 1;
        assert forall|k: int| 0 <= k < shorter.len() && k != i implies !is_news(
            t,
            base,
            root,
            #[trigger] shorter[k],
        ) by {
            assert(shorter[k] == items[k]);
        }
        lemma_only_news(t, base, root, shorter, i);
        assert(items[n] == items.last());
        if i == n {
            assert(Seq::<int>::empty().push(i) =~= seq![i]);
        }
    }
}

/// Tombstoning a row moves nothing.
proof fn lemma_tombstone_keeps_parents(t: Tables, id: FileId, at: i64)
    requires
        parents_exist(t),
        t.has_file(id),
    ensures
        parents_exist(tombstoned(t, id, at)),
{
    let u = tombstoned(t, id, at);
    assert forall|i: int| 0 <= i < u.files.len() implies u.parent_ok(
        (#[trigger] u.files[i]).parent_id,
    ) by {
        assert(t.parent_ok(t.files[i].parent_id));
    }
}

proof fn lemma_removal_keeps_parents(t: Tables, root: Seq<char>, path: Seq<char>, at: i64)
    requires
        t.wf(),
        parents_exist(t),
    ensures
        parents_exist(removed(t, root, path, at).tables),
{
    if let Some(name) = file_name_of(path) {
        let dirs = dirs_to(root, path);
        if let Some(id) = live_entry(t, dirs, name) {
            lemma_entry_place(t, follow(t, dirs)->0, name);
            lemma_tombstone_keeps_parents(t, id, at);
        }
    }
}

proof fn lemma_touch_keeps_parents(
    t: Tables,
    root: Seq<char>,
    path: Seq<char>,
    stat: Stat,
    at: i64,
)
    requires
        t.wf(),
        parents_exist(t),
        components_of(root).len() > 0,
        t.room_for(components_of(root).len() + dirs_below(root, path).len() + 1),
    ensures
        parents_exist(touched(t, root, path, stat, at).tables),
{
    let top = Seq::<Seq<char>>::empty();
    let base = components_of(root);
    let dirs = dirs_below(root, path);
    lemma_dirs_followed(t, top, base);
    assert(top + base =~= base);
    let (rooted, root_id) = dir_chain(t, None, base);
    lemma_followed(rooted, base);
    match file_name_of(path) {
        None => {
            lemma_dirs_followed(rooted, base, dirs);
        },
        Some(name) => {
            lemma_observed(rooted, base, root_id->0, dirs, name, stat);
            let u = touched(t, root, path, stat, at).tables;
            let seen = observe(rooted, root_id->0, dirs, name, stat).0;
            assert forall|i: int| 0 <= i < u.files.len() implies u.parent_ok(
                (#[trigger] u.files[i]).parent_id,
            ) by {
                assert(seen.parent_ok(seen.files[i].parent_id));
            }
        },
    }
}

proof fn lemma_move_keeps_parents(
    t: Tables,
    from_root: Seq<char>,
    from: Seq<char>,
    to_root: Seq<char>,
    to: Seq<char>,
    stat: Stat,
    at: i64,
)
    requires
        t.wf(),
        parents_exist(t),
        components_of(to_root).len() > 0,
        t.room_for(components_of(to_root).len() + dirs_below(to_root, to).len() + 1),
    ensures
        parents_exist(renamed(t, from_root, from, to_root, to, stat, at).tables),
{
    let source = match file_name_of(from) {
        Some(name) => live_entry(t, dirs_to(from_root, from), name),
        None => None,
    };
    if source is Some && file_name_of(to) is Some {
        let id = source->0;
        let name = file_name_of(to)->0;
        let top = Seq::<Seq<char>>::empty();
        let base = components_of(to_root);
        let dirs = dirs_below(to_root, to);
        lemma_entry_place(t, follow(t, dirs_to(from_root, from))->0, file_name_of(from)->0);
        lemma_dirs_followed(t, top, base);
        assert(top + base =~= base);
        let (placed, to_id) = dir_chain(t, None, base);
        lemma_dirs_followed(placed, base, dirs);
        let (above, parent) = dir_chain(placed, to_id, dirs);
        lemma_followed(above, base + dirs);
        let (named, component) = intern(above, name);
        assert(parents_exist(named)) by {
            assert forall|i: int| 0 <= i < named.files.len() implies named.parent_ok(
                (#[trigger] named.files[i]).parent_id,
            ) by {
                assert(above.parent_ok(above.files[i].parent_id));
            }
        }
        let replaced = match chosen(named.files, Some(parent->0), component) {
            Some(i) => if named.files[i].deleted_at is None && i != id - 1 {
                tombstoned(named, (i + 1) as i64, at)
            } else {
                named
            },
            None => named,
        };
        if let Some(i) = chosen(named.files, Some(parent->0), component) {
            assert(is_chosen(named.files, Some(parent->0), component, i));
            lemma_tombstone_keeps_parents(named, (i + 1) as i64, at);
        }
        let u = renamed(t, from_root, from, to_root, to, stat, at).tables;
        assert forall|i: int| 0 <= i < u.files.len() implies u.parent_ok(
            (#[trigger] u.files[i]).parent_id,
        ) by {
            if i != id - 1 {
                assert(u.files[i] == replaced.files[i]);
                assert(replaced.parent_ok(replaced.files[i].parent_id));
            }
        }
    } else {
        lemma_touch_keeps_parents(t, to_root, to, stat, at);
    }
}

/// In new tables every entry stands below one that exists.
pub proof fn new_tables_hold_every_parent()
    ensures
        parents_exist(Tables::empty()),
{
}

/// After a scan, however many entries it came to and wherever it was cut short,
/// every entry still stands below one that exists.
pub proof fn a_scan_keeps_every_parent(
    t: Tables,
    root: Seq<char>,
    items: Seq<Walked>,
    options: ScanOptions,
    at: i64,
)
    requires
        t.wf(),
        parents_exist(t),
        components_of(root).len() > 0,
        t.room_for(components_of(root).len() + walk_room(items)),
    ensures
        parents_exist(scanned(t, root, items, options, at)),
{
    let top = Seq::<Seq<char>>::empty();
    let base = components_of(root);
    lemma_dir_chain(t, base);
    lemma_dirs_followed(t, top, base);
    let (start, id) = dir_chain(t, None, base);
    lemma_chain_leads(start, id->0, base);
    lemma_walk_keeps_parents(start, base, fresh_scan(root, id->0), items, options, at);
}

proof fn lemma_walk_keeps_parents(
    t: Tables,
    base: Seq<Seq<char>>,
    s: ScanState,
    items: Seq<Walked>,
    options: ScanOptions,
    at: i64,
)
    requires
        t.wf(),
        parents_exist(t),
        s.wf(t),
        t.room_for(walk_room(items)),
        leads_to(t, base, s.root_id),
    ensures
        ({
            let (u, end) = scan_steps(t, s, items, options, at);
            &&& u.wf()
            &&& parents_exist(u)
            &&& end.wf(u)
            &&& end.root_id == s.root_id
            &&& leads_to(u, base, s.root_id)
            &&& u.components.len() <= t.components.len() + walk_room(items)
            &&& u.files.len() <= t.files.len() + walk_room(items)
            &&& u.events.len() <= t.events.len() + walk_room(items)
        }),
    decreases items.len(),
{
    if items.len() > 0 {
        lemma_walk_keeps_parents(t, base, s, items.drop_last(), options, at);
        let (before, state) = scan_steps(t, s, items.drop_last(), options, at);
        let item = items.last();
        let (u, end) = scan_steps(t, s, items, options, at);
        if is_recorded(item) && !limit_reached(state.summary, options) {
            let path = item->path@;
            let dirs = dirs_below(state.root, path);
            let name = entry_name(path);
            let stat = stat_of(item);
            lemma_parts_bound(state.root, path);
            lemma_led_is_followed(before, base, s.root_id);
            lemma_observe(before, base, s.root_id, dirs, name, stat);
            lemma_observed(before, base, s.root_id, dirs, name, stat);
            let (seen, id, kind) = observe(before, s.root_id, dirs, name, stat);
            lemma_leads_to_stays(before, seen, base, s.root_id);
            lemma_told(seen, id, kind, at, recorded_size(stat));
            assert(u == told(seen, id, kind, at, recorded_size(stat)));
            let batch = if kind is Some {
                seq![entry_event(id, kind->0, at, recorded_size(stat))]
            } else {
                Seq::empty()
            };
            assert(u =~= with_events(seen, batch));
            lemma_events_leave_tree(seen, batch, base, s.root_id);
            assert forall|i: int| 0 <= i < u.files.len() implies u.parent_ok(
                (#[trigger] u.files[i]).parent_id,
            ) by {
                assert(seen.parent_ok(seen.files[i].parent_id));
            }
        }
    }
}

/// Whatever change is carried out, every entry still stands below one that
/// exists.
pub proof fn a_change_keeps_every_parent(
    t: Tables,
    roots: Seq<String>,
    plan: Plan,
    look: Look,
    at: i64,
)
    requires
        t.wf(),
        parents_exist(t),
        t.room_for(plan_room(roots, plan)),
    ensures
        plan_recorded(t, roots, plan, look, at) matches Some(recorded) ==> parents_exist(
            recorded.tables,
        ),
{
    match plan {
        Plan::Record(path) => {
            lemma_path_keeps_parents(t, roots, path@, look, at);
        },
        Plan::Remove(path) => {
            if let Some(root) = owner_of(roots, path@) {
                lemma_removal_keeps_parents(t, root, path@, at);
            }
        },
        Plan::Move { from, to } => {
            lemma_path_keeps_parents(t, roots, to@, look, at);
            if let Some(root) = owner_of(roots, from@) {
                lemma_removal_keeps_parents(t, root, from@, at);
                if let Some(to_root) = owner_of(roots, to@) {
                    if let Look::Found(stat) = look {
                        let i = choose|i: int| is_owner(roots, to@, i);
                        lemma_most_components(roots, i);
                        lemma_parts_bound(to_root, to@);
                        if !root_refused(to_root) {
                            lemma_move_keeps_parents(t, root, from@, to_root, to@, stat, at);
                        }
                    }
                }
            }
        },
        _ => {},
    }
}

proof fn lemma_path_keeps_parents(
    t: Tables,
    roots: Seq<String>,
    path: Seq<char>,
    look: Look,
    at: i64,
)
    requires
        t.wf(),
        parents_exist(t),
        t.room_for(change_room(roots, path)),
    ensures
        path_recorded(t, roots, path, look, at) matches Some(recorded) ==> parents_exist(
            recorded.tables,
        ),
{
    if let Some(root) = owner_of(roots, path) {
        let i = choose|i: int| is_owner(roots, path, i);
        lemma_most_components(roots, i);
        lemma_parts_bound(root, path);
        lemma_removal_keeps_parents(t, root, path, at);
        if let Look::Found(stat) = look {
            if !root_refused(root) {
                lemma_touch_keeps_parents(t, root, path, stat, at);
            }
        }
    }
}

} // verus!
