//! Why a scan tells each change once, and why interrupting it costs time rather
//! than history.
//!
//! A file that is not in the tables just as it was seen gets one event, and one
//! that is gets none. So a scan that follows an interrupted one records just
//! what that one left out.
use vstd::prelude::*;

use crate::events::{with_events, NewEvent};
use crate::fspath::{components_of, dirs_below};
use crate::lookup::{
    is_beside, kind_at, lemma_dirs_followed, lemma_follow_reads, lemma_led_is_followed,
    lemma_observed, parents_exist, same_file,
};
use crate::paths::dir_chain;
use crate::rescan::{
    is_recorded, is_tree, keeps_alive, leads_to, lemma_dirs_below, lemma_events_leave_tree,
    lemma_leads_to_stays, lemma_observe, lemma_parts_bound, lemma_walk_room, lemma_walk_settles,
    names_below, settled, stands, stat_of,
};
use crate::scan::{
    entry_event, entry_name, fresh_scan, limit_reached, observe, recorded_size, scan_step,
    scan_steps, walk_room, ScanOptions, ScanState, Stat, Walked,
};
use crate::store::{FileId, Tables};

verus! {

/// Of a file that stands as it stood there is the same to say.
proof fn lemma_same_kind(t: Tables, u: Tables, names: Seq<Seq<char>>, stat: Stat)
    requires
        same_file(t, u, names),
    ensures
        kind_at(t, names, stat) == kind_at(u, names, stat),
{
}

/// Whether an entry of a walk is a file of which there is something to say.
pub open spec fn is_news(t: Tables, base: Seq<Seq<char>>, root: Seq<char>, item: Walked) -> bool {
    &&& is_recorded(item)
    &&& !stat_of(item).is_dir
    &&& kind_at(t, base + names_below(root, item), stat_of(item)) is Some
}

/// Which entries of a walk are files of which there is something to say, in
/// order.
pub open spec fn news(t: Tables, base: Seq<Seq<char>>, root: Seq<char>, items: Seq<Walked>) -> Seq<
    int,
>
    decreases items.len(),
{
    if items.len() == 0 {
        Seq::empty()
    } else if is_news(t, base, root, items.last()) {
        news(t, base, root, items.drop_last()).push(items.len() - 1)
    } else {
        news(t, base, root, items.drop_last())
    }
}

/// Whether an event says of an entry what there was to say of it: it is about
/// the file that the entry's names lead to, and of the kind that tables `t` gave.
pub open spec fn tells(
    t: Tables,
    u: Tables,
    base: Seq<Seq<char>>,
    root: Seq<char>,
    item: Walked,
    event: NewEvent,
    at: i64,
) -> bool {
    let whole = names_below(root, item);
    &&& leads_to(u, base + whole, event.file_id)
    &&& kind_at(t, base + whole, stat_of(item)) matches Some(kind) && event == entry_event(
        event.file_id,
        kind,
        at,
        recorded_size(stat_of(item)),
    )
}

/// A file that no step has come to yet stands as it stood.
pub open spec fn others_stay(
    t: Tables,
    u: Tables,
    base: Seq<Seq<char>>,
    root: Seq<char>,
    items: Seq<Walked>,
    n: int,
) -> bool {
    forall|i: int|
        n <= i < items.len() && is_recorded(#[trigger] items[i]) && !stat_of(items[i]).is_dir
            ==> same_file(t, u, base + names_below(root, items[i]))
}

/// Names that do not begin those of an entry are beside it.
proof fn lemma_beside(
    base: Seq<Seq<char>>,
    all: Seq<Seq<char>>,
    other: Seq<Seq<char>>,
)
    requires
        !other.is_prefix_of(all),
    ensures
        is_beside(base, all, base + other),
{
    assert forall|k: int| 0 < k <= all.len() implies base + other != base + #[trigger] all.take(
        k,
    ) by {
        if base + other == base + all.take(k) {
            assert(other =~= (base + other).skip(base.len() as int));
            assert(all.take(k) =~= (base + all.take(k)).skip(base.len() as int));
            assert(other =~= all.subrange(0, other.len() as int));
        }
    }
}

/// What one step of a walk adds: the event that there is to record of its entry,
/// and nothing to files that it is not about.
proof fn lemma_step_tells(
    t: Tables,
    s: ScanState,
    base: Seq<Seq<char>>,
    items: Seq<Walked>,
    n: int,
    options: ScanOptions,
    at: i64,
)
    requires
        t.wf(),
        s.wf(t),
        0 <= n < items.len(),
        t.room_for(crate::scan::step_room(items[n])),
        leads_to(t, base, s.root_id),
        parents_exist(t),
        is_tree(s.root, items),
        options.max_entries is None,
    ensures
        ({
            let item = items[n];
            let (u, next, step) = scan_step(t, s, item, options, at);
            let whole = names_below(s.root, item);
            &&& parents_exist(u)
            &&& keeps_alive(t, u)
            &&& others_stay(t, u, base, s.root, items, n + 1)
            &&& if is_news(t, base, s.root, item) {
                exists|event: NewEvent| #[trigger]
                    tells(t, u, base, s.root, item, event, at) && u.events == t.events.push(
                        event,
                    ) && next.summary.events_recorded == (
                    s.summary.events_recorded + 1) as u64
            } else {
                &&& u.events == t.events
                &&& next.summary.events_recorded == s.summary.events_recorded
            }
        }),
{
    let item = items[n];
    let (u, next, step) = scan_step(t, s, item, options, at);
    if is_recorded(item) {
        let path = item->path@;
        let dirs = dirs_below(s.root, path);
        let name = entry_name(path);
        let stat = stat_of(item);
        let whole = names_below(s.root, item);
        lemma_parts_bound(s.root, path);
        lemma_observe(t, base, s.root_id, dirs, name, stat);
        lemma_led_is_followed(t, base, s.root_id);
        lemma_observed(t, base, s.root_id, dirs, name, stat);
        let (observed, id, kind) = observe(t, s.root_id, dirs, name, stat);
        let event = entry_event(id, kind->0, at, recorded_size(stat));
        let batch = if kind is Some {
            seq![event]
        } else {
            Seq::empty()
        };
        assert(u =~= with_events(observed, batch));
        assert(keeps_alive(t, u));
        assert(parents_exist(u)) by {
            assert forall|i: int| 0 <= i < u.files.len() implies u.parent_ok(
                (#[trigger] u.files[i]).parent_id,
            ) by {
                assert(observed.parent_ok(observed.files[i].parent_id));
            }
        }
        assert forall|i: int|
            n + 1 <= i < items.len() && is_recorded(#[trigger] items[i]) && !stat_of(
                items[i],
            ).is_dir implies same_file(t, u, base + names_below(s.root, items[i])) by {
            let other = names_below(s.root, items[i]);
            assert(!other.is_prefix_of(names_below(s.root, items[n])));
            lemma_beside(base, dirs.push(name), other);
            assert(same_file(t, observed, base + other));
            lemma_follow_reads(observed, u, base + other);
        }
        if !stat.is_dir {
            if kind is Some {
                lemma_events_leave_tree(observed, batch, base + whole, id);
                assert(tells(t, u, base, s.root, item, event, at));
            }
        }
    } else {
        assert(keeps_alive(t, u));
    }
}

/// Whether `added` says of each entry of which there was something to say just
/// that, in order.
pub open spec fn tells_all(
    t: Tables,
    u: Tables,
    base: Seq<Seq<char>>,
    root: Seq<char>,
    items: Seq<Walked>,
    added: Seq<NewEvent>,
    at: i64,
) -> bool {
    let indices = news(t, base, root, items);
    &&& added.len() == indices.len()
    &&& forall|j: int|
        0 <= j < indices.len() ==> 0 <= #[trigger] indices[j] < items.len() && tells(
            t,
            u,
            base,
            root,
            items[indices[j]],
            added[j],
            at,
        )
}

/// The entries of which there is something to say are among the entries.
pub(crate) proof fn lemma_news_range(t: Tables, base: Seq<Seq<char>>, root: Seq<char>, items: Seq<Walked>)
    ensures
        news(t, base, root, items).len() <= items.len(),
        forall|j: int|
            0 <= j < news(t, base, root, items).len() ==> 0 <= #[trigger] news(
                t,
                base,
                root,
                items,
            )[j] < items.len() && is_news(t, base, root, items[news(t, base, root, items)[j]]),
    decreases items.len(),
{
    if items.len() > 0 {
        let shorter = items.drop_last();
        lemma_news_range(t, base, root, shorter);
        let before = news(t, base, root, shorter);
        let after = news(t, base, root, items);
        assert forall|j: int| 0 <= j < after.len() implies 0 <= #[trigger] after[j] < items.len()
            && is_news(t, base, root, items[after[j]]) by {
            if j < before.len() {
                assert(after[j] == before[j]);
                assert(items[before[j]] == shorter[before[j]]);
            }
        }
    }
}

/// A walk without an entry limit adds the events that there are to record, and
/// no others.
#[verifier::spinoff_prover]
#[verifier::rlimit(40)]
proof fn lemma_walk_tells(
    t: Tables,
    base: Seq<Seq<char>>,
    s: ScanState,
    items: Seq<Walked>,
    options: ScanOptions,
    at: i64,
    n: int,
)
    requires
        t.wf(),
        s.wf(t),
        s.summary.events_recorded == 0,
        0 <= n <= items.len() < u64::MAX,
        t.room_for(walk_room(items)),
        leads_to(t, base, s.root_id),
        is_tree(s.root, items),
        parents_exist(t),
        options.max_entries is None,
    ensures
        ({
            let (u, end) = scan_steps(t, s, items.take(n), options, at);
            let all = u.events;
            let earlier = t.events.len() as int;
            &&& parents_exist(u)
            &&& keeps_alive(t, u)
            &&& others_stay(t, u, base, s.root, items, n)
            &&& all.len() >= earlier && all.take(earlier) == t.events
            &&& tells_all(t, u, base, s.root, items.take(n), all.skip(earlier), at)
            &&& end.summary.events_recorded == news(t, base, s.root, items.take(n)).len()
        }),
    decreases n,
{
    let earlier = t.events.len() as int;
    if n == 0 {
        assert(items.take(0) =~= Seq::<Walked>::empty());
        assert(t.events.take(earlier) =~= t.events);
    } else {
        lemma_walk_tells(t, base, s, items, options, at, n - 1);
        lemma_walk_settles(t, base, s, items, options, at, n - 1);
        let (before, state) = scan_steps(t, s, items.take(n - 1), options, at);
        let item = items[n - 1];
        assert(items.take(n).drop_last() =~= items.take(n - 1));
        assert(items.take(n).last() == item);
        lemma_walk_room(items, n);
        lemma_step_tells(before, state, base, items, n - 1, options, at);
        let (u, end) = scan_steps(t, s, items.take(n), options, at);
        let old_all = before.events;
        let all = u.events;
        let indices = news(t, base, s.root, items.take(n - 1));
        let more = news(t, base, s.root, items.take(n));
        lemma_news_range(t, base, s.root, items.take(n - 1));
        assert forall|i: int| 0 <= i < t.files.len() && t.files[i].deleted_at is None implies (
        #[trigger] u.files[i]).deleted_at is None by {
            assert(before.files[i].deleted_at is None);
        }
        assert(others_stay(t, u, base, s.root, items, n)) by {
            assert forall|i: int|
                n <= i < items.len() && is_recorded(#[trigger] items[i]) && !stat_of(
                    items[i],
                ).is_dir implies same_file(t, u, base + names_below(s.root, items[i])) by {
                let names = base + names_below(s.root, items[i]);
                assert(same_file(t, before, names));
                assert(same_file(before, u, names));
            }
        }
        // what there is to say of the entry has not changed on the way to it
        if is_recorded(item) && !stat_of(item).is_dir {
            assert(same_file(t, before, base + names_below(s.root, items[n - 1])));
            lemma_same_kind(t, before, base + names_below(s.root, item), stat_of(item));
        }
        assert(is_news(t, base, s.root, item) == is_news(before, base, s.root, item));
        assert(all.take(earlier) =~= old_all.take(earlier));
        assert forall|j: int| 0 <= j < more.len() implies 0 <= #[trigger] more[j] < n && tells(
            t,
            u,
            base,
            s.root,
            items.take(n)[more[j]],
            all.skip(earlier)[j],
            at,
        ) by {
            if j < indices.len() {
                assert(more[j] == indices[j]);
                let told = old_all.skip(earlier)[j];
                assert(all.skip(earlier)[j] == told);
                assert(items.take(n - 1)[indices[j]] == items.take(n)[more[j]]);
                assert(tells(t, before, base, s.root, items.take(n - 1)[indices[j]], told, at));
                lemma_leads_to_stays(
                    before,
                    u,
                    base + names_below(s.root, items.take(n)[more[j]]),
                    told.file_id,
                );
            } else {
                let event = choose|event: NewEvent| #[trigger]
                    tells(before, u, base, s.root, item, event, at) && u.events == old_all.push(
                        event,
                    ) && end.summary.events_recorded == (
                    state.summary.events_recorded + 1) as u64;
                assert(all.skip(earlier)[j] == event);
            }
        }
    }
}

/// Observing the root leaves every file below it as it stood.
proof fn lemma_root_leaves_others(t: Tables, base: Seq<Seq<char>>)
    requires
        t.wf(),
        t.room_for(base.len()),
        parents_exist(t),
        base.len() > 0,
    ensures
        ({
            let (u, id) = dir_chain(t, None, base);
            &&& u.wf()
            &&& parents_exist(u)
            &&& keeps_alive(t, u)
            &&& id is Some && leads_to(u, base, id->0)
            &&& u.components.len() <= t.components.len() + base.len()
            &&& u.files.len() <= t.files.len() + base.len()
            &&& u.events == t.events
            &&& forall|whole: Seq<Seq<char>>|
                whole.len() > 0 ==> #[trigger] same_file(t, u, base + whole)
        }),
{
    let top = Seq::<Seq<char>>::empty();
    lemma_dirs_below(t, top, None, base);
    lemma_dirs_followed(t, top, base);
    assert(top + base =~= base);
    let (u, id) = dir_chain(t, None, base);
    assert(stands(u, base, id));
    assert forall|whole: Seq<Seq<char>>| whole.len() > 0 implies #[trigger] same_file(
        t,
        u,
        base + whole,
    ) by {
        assert(is_beside(top, base, base + whole)) by {
            assert forall|k: int| 0 < k <= base.len() implies base + whole != top
                + #[trigger] base.take(k) by {
                assert((base + whole).len() != (top + base.take(k)).len());
            }
        }
    }
}

/// Tables in which the files of a walk stand the same say the same of them.
proof fn lemma_news_agree(
    t: Tables,
    u: Tables,
    base: Seq<Seq<char>>,
    root: Seq<char>,
    items: Seq<Walked>,
)
    requires
        others_stay(t, u, base, root, items, 0),
    ensures
        news(t, base, root, items) == news(u, base, root, items),
        forall|i: int|
            0 <= i < items.len() && is_recorded(#[trigger] items[i]) && !stat_of(items[i]).is_dir
                ==> kind_at(t, base + names_below(root, items[i]), stat_of(items[i]))
                == kind_at(u, base + names_below(root, items[i]), stat_of(items[i])),
    decreases items.len(),
{
    if items.len() > 0 {
        let shorter = items.drop_last();
        let n = items.len() - 1;
        assert forall|i: int|
            0 <= i < shorter.len() && is_recorded(#[trigger] shorter[i]) && !stat_of(
                shorter[i],
            ).is_dir implies same_file(t, u, base + names_below(root, shorter[i])) by {
            assert(shorter[i] == items[i]);
        }
        lemma_news_agree(t, u, base, root, shorter);
        if is_recorded(items[n]) && !stat_of(items[n]).is_dir {
            lemma_same_kind(t, u, base + names_below(root, items[n]), stat_of(items[n]));
        }
        assert forall|i: int|
            0 <= i < items.len() && is_recorded(#[trigger] items[i]) && !stat_of(
                items[i],
            ).is_dir implies kind_at(t, base + names_below(root, items[i]), stat_of(items[i]))
            == kind_at(u, base + names_below(root, items[i]), stat_of(items[i])) by {
            if i < n {
                assert(items[i] == shorter[i]);
            }
        }
    }
}

/// What the first steps of a scan of `root` leave behind.
pub(crate) proof fn lemma_scan_tells(
    t: Tables,
    root: Seq<char>,
    items: Seq<Walked>,
    options: ScanOptions,
    at: i64,
    n: int,
)
    requires
        t.wf(),
        parents_exist(t),
        components_of(root).len() > 0,
        t.room_for(components_of(root).len() + walk_room(items)),
        0 <= n <= items.len() < u64::MAX,
        is_tree(root, items),
        options.max_entries is None,
    ensures
        ({
            let base = components_of(root);
            let (start, id) = dir_chain(t, None, base);
            let (u, end) = scan_steps(
                start,
                fresh_scan(root, id->0),
                items.take(n),
                options,
                at,
            );
            let earlier = t.events.len() as int;
            &&& u.wf()
            &&& parents_exist(u)
            &&& keeps_alive(t, u)
            &&& u.components.len() <= t.components.len() + base.len() + walk_room(items)
            &&& u.files.len() <= t.files.len() + base.len() + walk_room(items)
            &&& u.events.len() <= t.events.len() + walk_room(items)
            &&& others_stay(t, u, base, root, items, n)
            &&& forall|i: int|
                0 <= i < n && is_recorded(#[trigger] items[i]) && !stat_of(items[i]).is_dir
                    ==> settled(u, base, names_below(root, items[i]), stat_of(items[i]))
            &&& u.events.len() >= earlier && u.events.take(earlier) == t.events
            &&& tells_all(
                t,
                u,
                base,
                root,
                items.take(n),
                u.events.skip(earlier),
                at,
            )
            &&& end.summary.events_recorded == news(t, base, root, items.take(n)).len()
        }),
{
    let base = components_of(root);
    lemma_root_leaves_others(t, base);
    let (start, id) = dir_chain(t, None, base);
    let s = fresh_scan(root, id->0);
    lemma_walk_tells(start, base, s, items, options, at, n);
    lemma_walk_settles(start, base, s, items, options, at, n);
    lemma_walk_room(items, n);
    let (u, end) = scan_steps(start, s, items.take(n), options, at);
    let earlier = t.events.len() as int;
    let taken = items.take(n);
    assert forall|i: int| 0 <= i < t.files.len() && t.files[i].deleted_at is None implies (
    #[trigger] u.files[i]).deleted_at is None by {
        assert(start.files[i].deleted_at is None);
    }
    assert forall|i: int|
        n <= i < items.len() && is_recorded(#[trigger] items[i]) && !stat_of(
            items[i],
        ).is_dir implies same_file(t, u, base + names_below(root, items[i])) by {
        let names = base + names_below(root, items[i]);
        assert(names_below(root, items[i]).len() > 0);
        assert(same_file(t, start, names));
        assert(same_file(start, u, names));
    }
    assert(others_stay(t, start, base, root, taken, 0)) by {
        assert forall|i: int|
            0 <= i < taken.len() && is_recorded(#[trigger] taken[i]) && !stat_of(
                taken[i],
            ).is_dir implies same_file(t, start, base + names_below(root, taken[i])) by {
            assert(names_below(root, taken[i]).len() > 0);
        }
    }
    lemma_news_agree(t, start, base, root, taken);
    lemma_news_range(t, base, root, taken);
    let indices = news(t, base, root, taken);
    let added = u.events.skip(earlier);
    assert forall|j: int| 0 <= j < indices.len() implies 0 <= #[trigger] indices[j] < taken.len()
        && tells(t, u, base, root, taken[indices[j]], added[j], at) by {
        assert(news(start, base, root, taken)[j] == indices[j]);
        assert(tells(start, u, base, root, taken[indices[j]], added[j], at));
    }
}

/// How many entries of a walk are taken in where nothing stops it.
pub open spec fn entries_in(items: Seq<Walked>) -> nat
    decreases items.len(),
{
    if items.len() == 0 {
        0
    } else if is_recorded(items.last()) {
        entries_in(items.drop_last()) + 1
    } else {
        entries_in(items.drop_last())
    }
}

/// Whether so many entries are all that the options allow.
pub open spec fn is_enough(n: nat, options: ScanOptions) -> bool {
    options.max_entries matches Some(max) && n >= max
}

/// What a scan comes to of a walk before its entry limit stops it.
pub open spec fn within(items: Seq<Walked>, options: ScanOptions) -> Seq<Walked>
    decreases items.len(),
{
    if items.len() == 0 || !is_enough(entries_in(items.drop_last()), options) {
        items
    } else {
        within(items.drop_last(), options)
    }
}

/// The options without their entry limit.
pub open spec fn unlimited(options: ScanOptions) -> ScanOptions {
    ScanOptions { max_entries: None, ..options }
}

/// What a scan comes to is how a walk begins, and where it does not come to all
/// of it, the limit is met.
pub(crate) proof fn lemma_within(items: Seq<Walked>, options: ScanOptions)
    ensures
        within(items, options).len() <= items.len(),
        within(items, options) == items.take(within(items, options).len() as int),
        is_enough(entries_in(items), options) ==> is_enough(
            entries_in(within(items, options)),
            options,
        ),
    decreases items.len(),
{
    if items.len() == 0 || !is_enough(entries_in(items.drop_last()), options) {
        assert(items.take(items.len() as int) =~= items);
    } else {
        lemma_within(items.drop_last(), options);
        let n = within(items, options).len() as int;
        assert(items.drop_last().take(n) =~= items.take(n));
    }
}

/// What a scan comes to of the beginning of a walk.
pub(crate) proof fn lemma_within_part(items: Seq<Walked>, options: ScanOptions, k: int)
    requires
        0 <= k <= items.len(),
    ensures
        within(items.take(k), options) == if k <= within(items, options).len() {
            items.take(k)
        } else {
            within(items, options)
        },
    decreases items.len(),
{
    lemma_within(items, options);
    if k == items.len() {
        assert(items.take(k) =~= items);
    } else {
        let shorter = items.drop_last();
        lemma_within_part(shorter, options, k);
        lemma_within(shorter, options);
        assert(shorter.take(k) =~= items.take(k));
        if !is_enough(entries_in(shorter), options) {
            lemma_not_enough(shorter, options);
        }
    }
}

/// Where the limit is not met, a scan comes to all of a walk.
proof fn lemma_not_enough(items: Seq<Walked>, options: ScanOptions)
    requires
        !is_enough(entries_in(items), options),
    ensures
        within(items, options) == items,
{
}

/// A scan with an entry limit is a scan without one of what it comes to.
pub(crate) proof fn lemma_limit(
    t: Tables,
    root: Seq<char>,
    root_id: FileId,
    items: Seq<Walked>,
    options: ScanOptions,
    at: i64,
)
    requires
        items.len() < u64::MAX,
    ensures
        ({
            let s = fresh_scan(root, root_id);
            let (u, end) = scan_steps(t, s, items, options, at);
            &&& (u, end) == scan_steps(t, s, within(items, options), unlimited(options), at)
            &&& end.summary.files_seen + end.summary.dirs_seen == entries_in(
                within(items, options),
            )
            &&& entries_in(within(items, options)) <= items.len()
        }),
    decreases items.len(),
{
    if items.len() > 0 {
        let shorter = items.drop_last();
        lemma_limit(t, root, root_id, shorter, options, at);
        lemma_within(shorter, options);
        if !is_enough(entries_in(shorter), options) {
            lemma_not_enough(shorter, options);
        }
    }
}

/// An entry that a scan comes to finds its limit not met yet.
pub(crate) proof fn lemma_seen(
    t: Tables,
    root: Seq<char>,
    root_id: FileId,
    items: Seq<Walked>,
    options: ScanOptions,
    at: i64,
    i: int,
)
    requires
        items.len() < u64::MAX,
        0 <= i < within(items, options).len(),
    ensures
        !limit_reached(
            scan_steps(t, fresh_scan(root, root_id), items.take(i), options, at).1.summary,
            options,
        ),
{
    lemma_within(items, options);
    lemma_within_part(items, options, i);
    lemma_within_part(items, options, i + 1);
    lemma_limit(t, root, root_id, items.take(i), options, at);
    assert(items.take(i + 1).drop_last() =~= items.take(i));
    lemma_within(items.take(i), options);
}

/// Part of a walk over a tree is one too.
pub(crate) proof fn lemma_part_is_tree(root: Seq<char>, items: Seq<Walked>, n: int)
    requires
        is_tree(root, items),
        0 <= n <= items.len(),
    ensures
        is_tree(root, items.take(n)),
{
    let part = items.take(n);
    assert forall|i: int, j: int|
        #![trigger part[i], part[j]]
        0 <= i < part.len() && 0 <= j < part.len() && i != j && is_recorded(part[i])
            && is_recorded(part[j]) && !stat_of(part[i]).is_dir implies !names_below(
        root,
        part[i],
    ).is_prefix_of(names_below(root, part[j])) by {
        assert(part[i] == items[i] && part[j] == items[j]);
    }
}

/// A scan tells each change once: of a file that was not known it records that
/// it was created, of one that was known otherwise that it was modified, of one
/// that was known just as it was seen nothing, and it records nothing else. In
/// particular, a first scan records each file once.
///
/// A file is known where its names lead to a live entry, whether or not the
/// directories above it are recorded as gone: what a removed directory held is
/// known still when the directory is seen again. Where an entry limit stops the
/// scan, it holds of the entries that the scan came to.
pub proof fn a_scan_tells_each_change_once(
    t: Tables,
    root: Seq<char>,
    items: Seq<Walked>,
    options: ScanOptions,
    at: i64,
)
    requires
        t.wf(),
        parents_exist(t),
        components_of(root).len() > 0,
        t.room_for(components_of(root).len() + walk_room(items)),
        items.len() < u64::MAX,
        is_tree(root, items),
    ensures
        ({
            let base = components_of(root);
            let (start, id) = dir_chain(t, None, base);
            let (after, state) = scan_steps(start, fresh_scan(root, id->0), items, options, at);
            let earlier = t.events.len() as int;
            let seen = within(items, options);
            &&& after.events.len() >= earlier
            &&& after.events.take(earlier) == t.events
            &&& tells_all(t, after, base, root, seen, after.events.skip(earlier), at)
            &&& state.summary.events_recorded == news(t, base, root, seen).len()
        }),
{
    let (start, id) = dir_chain(t, None, components_of(root));
    let seen = within(items, options);
    lemma_within(items, options);
    lemma_limit(start, root, id->0, items, options, at);
    lemma_walk_room(items, seen.len() as int);
    lemma_part_is_tree(root, items, seen.len() as int);
    lemma_scan_tells(t, root, seen, unlimited(options), at, seen.len() as int);
    assert(seen.take(seen.len() as int) =~= seen);
}

/// Of a file that stands just as it was seen there is nothing to say.
pub(crate) proof fn lemma_settled_is_no_news(
    t: Tables,
    base: Seq<Seq<char>>,
    whole: Seq<Seq<char>>,
    stat: Stat,
)
    requires
        t.wf(),
        settled(t, base, whole, stat),
    ensures
        kind_at(t, base + whole, stat) is None,
{
    let id = choose|id: FileId| #[trigger]
        leads_to(t, base + whole, id) && t.file(id).size_bytes == recorded_size(stat) && t.file(
            id,
        ).mtime_unix == stat.mtime_unix;
    lemma_led_is_followed(t, base + whole, id);
}

/// What there was to say of the entries falls into what was said of the first
/// of them, which are settled since, and what there is to say still.
proof fn lemma_news_split(
    t: Tables,
    mid: Tables,
    base: Seq<Seq<char>>,
    root: Seq<char>,
    items: Seq<Walked>,
    k: int,
    n: int,
)
    requires
        mid.wf(),
        0 <= k <= items.len(),
        0 <= n <= items.len(),
        others_stay(t, mid, base, root, items, k),
        forall|i: int|
            0 <= i < k && is_recorded(#[trigger] items[i]) && !stat_of(items[i]).is_dir ==> settled(
                mid,
                base,
                names_below(root, items[i]),
                stat_of(items[i]),
            ),
    ensures
        n <= k ==> news(mid, base, root, items.take(n)).len() == 0,
        n >= k ==> news(t, base, root, items.take(n)) == news(t, base, root, items.take(k)) + news(
            mid,
            base,
            root,
            items.take(n),
        ),
    decreases n,
{
    if n > 0 {
        let item = items[n - 1];
        let whole = names_below(root, item);
        lemma_news_split(t, mid, base, root, items, k, n - 1);
        assert(items.take(n).drop_last() =~= items.take(n - 1));
        assert(items.take(n).last() == item);
        if is_recorded(item) && !stat_of(item).is_dir {
            if n <= k {
                assert(settled(mid, base, whole, stat_of(item)));
                lemma_settled_is_no_news(mid, base, whole, stat_of(item));
            } else {
                assert(same_file(t, mid, base + names_below(root, items[n - 1])));
                lemma_same_kind(t, mid, base + whole, stat_of(item));
            }
        }
    }
    if n == k {
        assert(news(t, base, root, items.take(k)) =~= news(t, base, root, items.take(k)) + news(
            mid,
            base,
            root,
            items.take(k),
        ));
    } else if n > k {
        assert(news(t, base, root, items.take(n)) =~= news(t, base, root, items.take(k)) + news(
            mid,
            base,
            root,
            items.take(n),
        ));
    }
}

/// What an interrupted scan and one that follows it record, where there is no
/// entry limit.
proof fn lemma_interrupted(
    t: Tables,
    root: Seq<char>,
    items: Seq<Walked>,
    options: ScanOptions,
    first: i64,
    second: i64,
    k: int,
)
    requires
        t.wf(),
        parents_exist(t),
        components_of(root).len() > 0,
        t.room_for(2 * (components_of(root).len() + walk_room(items))),
        0 <= k <= items.len() < u64::MAX,
        is_tree(root, items),
        options.max_entries is None,
    ensures
        ({
            let base = components_of(root);
            let (start, id) = dir_chain(t, None, base);
            let (written, _) = scan_steps(
                start,
                fresh_scan(root, id->0),
                items.take(k),
                options,
                first,
            );
            let (again, same) = dir_chain(written, None, base);
            let (after, state) = scan_steps(
                again,
                fresh_scan(root, same->0),
                items,
                options,
                second,
            );
            let earlier = t.events.len() as int;
            let indices = news(t, base, root, items);
            &&& after.events.len() == earlier + indices.len()
            &&& after.events.take(earlier) == t.events
            &&& forall|j: int|
                0 <= j < indices.len() ==> 0 <= #[trigger] indices[j] < items.len() && tells(
                    t,
                    after,
                    base,
                    root,
                    items[indices[j]],
                    after.events[earlier + j],
                    if indices[j] < k {
                        first
                    } else {
                        second
                    },
                )
        }),
{
    let base = components_of(root);
    let (start, id) = dir_chain(t, None, base);
    let (written, state) = scan_steps(
        start,
        fresh_scan(root, id->0),
        items.take(k),
        options,
        first,
    );
    lemma_scan_tells(t, root, items, options, first, k);
    lemma_scan_tells(written, root, items, options, second, items.len() as int);
    assert(items.take(items.len() as int) =~= items);
    lemma_news_split(t, written, base, root, items, k, items.len() as int);
    let (again, same) = dir_chain(written, None, base);
    let (after, last) = scan_steps(again, fresh_scan(root, same->0), items, options, second);
    let earlier = t.events.len() as int;
    let indices = news(t, base, root, items);
    let said = news(t, base, root, items.take(k));
    let rest = news(written, base, root, items);
    assert(indices == said + rest);
    assert(after.events.take(earlier) =~= t.events) by {
        assert(after.events.take(written.events.len() as int).take(earlier)
            =~= after.events.take(earlier));
    }
    lemma_news_range(t, base, root, items.take(k));
    lemma_news_range(written, base, root, items);
    lemma_news_range(t, base, root, items);
    assert forall|j: int| 0 <= j < indices.len() implies 0 <= #[trigger] indices[j] < items.len()
        && tells(
        t,
        after,
        base,
        root,
        items[indices[j]],
        after.events[earlier + j],
        if indices[j] < k {
            first
        } else {
            second
        },
    ) by {
        if j < said.len() {
            assert(indices[j] == said[j]);
            let event = written.events.skip(earlier)[j];
            assert(after.events.take(written.events.len() as int)[earlier + j] == event);
            assert(items.take(k)[said[j]] == items[said[j]]);
            assert(tells(t, written, base, root, items.take(k)[said[j]], event, first));
            lemma_leads_to_stays(
                written,
                after,
                base + names_below(root, items[said[j]]),
                event.file_id,
            );
        } else {
            let m = j - said.len();
            assert(indices[j] == rest[m]);
            let item = items[rest[m]];
            assert(is_news(written, base, root, item));
            if rest[m] < k {
                // a file that was taken in is settled: there is nothing to say
                assert(settled(
                    written,
                    base,
                    names_below(root, items[rest[m]]),
                    stat_of(items[rest[m]]),
                ));
                lemma_settled_is_no_news(
                    written,
                    base,
                    names_below(root, item),
                    stat_of(item),
                );
                assert(false);
            }
            assert(same_file(t, written, base + names_below(root, items[rest[m]])));
            lemma_same_kind(t, written, base + names_below(root, item), stat_of(item));
            assert(tells(
                written,
                after,
                base,
                root,
                items[rest[m]],
                after.events.skip(written.events.len() as int)[m],
                second,
            ));
        }
    }
}

/// An interrupted scan loses nothing: wherever a scan is cut short, after any
/// number of steps, a scan that follows makes up for the rest. The two together
/// record the same events about the same files as one scan would have, each once.
/// Where an entry limit stops the second one, it holds of the entries that it came
/// to.
pub proof fn an_interrupted_scan_loses_nothing(
    t: Tables,
    root: Seq<char>,
    items: Seq<Walked>,
    options: ScanOptions,
    first: i64,
    second: i64,
    k: int,
)
    requires
        t.wf(),
        parents_exist(t),
        components_of(root).len() > 0,
        t.room_for(2 * (components_of(root).len() + walk_room(items))),
        0 <= k <= items.len() < u64::MAX,
        is_tree(root, items),
    ensures
        ({
            let base = components_of(root);
            let (start, id) = dir_chain(t, None, base);
            let (cut, _) = scan_steps(
                start,
                fresh_scan(root, id->0),
                items.take(k),
                options,
                first,
            );
            let (again, same) = dir_chain(cut, None, base);
            let (after, state) = scan_steps(
                again,
                fresh_scan(root, same->0),
                items,
                options,
                second,
            );
            let earlier = t.events.len() as int;
            let seen = within(items, options);
            let indices = news(t, base, root, seen);
            &&& after.events.len() == earlier + indices.len()
            &&& after.events.take(earlier) == t.events
            &&& forall|j: int|
                0 <= j < indices.len() ==> 0 <= #[trigger] indices[j] < seen.len() && tells(
                    t,
                    after,
                    base,
                    root,
                    seen[indices[j]],
                    after.events[earlier + j],
                    if indices[j] < k {
                        first
                    } else {
                        second
                    },
                )
        }),
{
    let base = components_of(root);
    let (start, id) = dir_chain(t, None, base);
    let seen = within(items, options);
    let n = seen.len() as int;
    let part = if k <= n {
        k
    } else {
        n
    };
    lemma_within(items, options);
    lemma_within_part(items, options, k);
    assert(seen.take(part) =~= within(items.take(k), options));
    lemma_limit(start, root, id->0, items.take(k), options, first);
    let (cut, _) = scan_steps(start, fresh_scan(root, id->0), items.take(k), options, first);
    let (again, same) = dir_chain(cut, None, base);
    lemma_limit(again, root, same->0, items, options, second);
    lemma_walk_room(items, n);
    lemma_part_is_tree(root, items, n);
    lemma_interrupted(t, root, seen, unlimited(options), first, second, part);
}

} // verus!
