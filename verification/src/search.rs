//! Search by meaning: what is done with the files that lie nearest to a query.
use vstd::prelude::*;

use crate::events::{
    are_latest, classified, event_key, extracted, is_entry, is_latest, is_that, latest_for_file_ids,
    TimelineEntry,
};
use crate::paths::path_of;
use crate::ranked::Ranked;
use crate::store::{FileId, Store, Tables};
use crate::text::{same_text, text_view};
use crate::timeline::{shows, to_dto, TimelineItem};

verus! {

/// Facet filters: a field that is set has to match exactly.
#[derive(Debug, PartialEq, Eq)]
pub struct SearchFilters {
    pub doc_type: Option<String>,
    pub author: Option<String>,
    pub language: Option<String>,
    pub git_branch: Option<String>,
    pub classification: Option<String>,
}

impl Default for SearchFilters {
    fn default() -> (r: SearchFilters)
        ensures
            r.sets_nothing(),
    {
        SearchFilters {
            doc_type: None,
            author: None,
            language: None,
            git_branch: None,
            classification: None,
        }
    }
}

impl SearchFilters {
    /// Whether no field is set.
    pub open spec fn sets_nothing(self) -> bool {
        self.doc_type is None && self.author is None && self.language is None && self.git_branch
            is None && self.classification is None
    }

    /// Whether no field is set.
    pub fn is_empty(&self) -> (r: bool)
        ensures
            r == self.sets_nothing(),
    {
        self.doc_type.is_none() && self.author.is_none() && self.language.is_none()
            && self.git_branch.is_none() && self.classification.is_none()
    }
}

/// A filtered search looks at this many times as many files as it gives.
pub const FACET_FILTER_OVERSAMPLE: u32 = 5;

/// A filtered search looks at no more files than this.
pub const MAX_FACET_CANDIDATE_LIMIT: u32 = 500;

/// How many of the nearest files a search looks at: filtering comes after
/// ranking, so a filtered search has to look at more.
pub open spec fn candidates(limit: u32, filtered: bool) -> int {
    if !filtered {
        limit as int
    } else if limit * FACET_FILTER_OVERSAMPLE < MAX_FACET_CANDIDATE_LIMIT {
        limit * FACET_FILTER_OVERSAMPLE
    } else {
        MAX_FACET_CANDIDATE_LIMIT as int
    }
}

/// How many of the nearest files a search looks at.
pub fn candidate_limit(limit: u32, filters: &SearchFilters) -> (r: u32)
    ensures
        r == candidates(limit, !filters.sets_nothing()),
{
    if filters.is_empty() {
        limit
    } else if limit >= MAX_FACET_CANDIDATE_LIMIT {
        MAX_FACET_CANDIDATE_LIMIT
    } else if limit * FACET_FILTER_OVERSAMPLE < MAX_FACET_CANDIDATE_LIMIT {
        limit * FACET_FILTER_OVERSAMPLE
    } else {
        MAX_FACET_CANDIDATE_LIMIT
    }
}

/// Whether a field passes a filter.
pub open spec fn field_passes(filter: Option<Seq<char>>, field: Option<Seq<char>>) -> bool {
    filter is None || filter == field
}

/// Whether an entry passes every filter that is set.
pub open spec fn entry_passes(entry: TimelineEntry, filters: SearchFilters) -> bool {
    &&& field_passes(text_view(filters.doc_type), text_view(entry.doc_type))
    &&& field_passes(text_view(filters.author), text_view(entry.author))
    &&& field_passes(text_view(filters.language), text_view(entry.language))
    &&& field_passes(text_view(filters.git_branch), text_view(entry.git_branch))
    &&& field_passes(text_view(filters.classification), text_view(entry.classification))
}

fn check_field(filter: &Option<String>, field: &Option<String>) -> (r: bool)
    ensures
        r == field_passes(text_view(*filter), text_view(*field)),
{
    match filter {
        None => true,
        Some(f) => match field {
            Some(value) => same_text(f.as_str(), value.as_str()),
            None => false,
        },
    }
}

/// Whether an entry passes every filter that is set.
pub fn entry_matches_filters(entry: &TimelineEntry, filters: &SearchFilters) -> (r: bool)
    ensures
        r == entry_passes(*entry, *filters),
{
    check_field(&filters.doc_type, &entry.doc_type) && check_field(&filters.author, &entry.author)
        && check_field(&filters.language, &entry.language) && check_field(
        &filters.git_branch,
        &entry.git_branch,
    ) && check_field(&filters.classification, &entry.classification)
}

/// One file that was found.
#[derive(Debug)]
pub struct Found {
    pub file_id: FileId,
    pub item: TimelineItem,
}

/// The positions of the entries, among the first `n`, that pass.
pub open spec fn passing(entries: Seq<TimelineEntry>, filters: SearchFilters, n: nat) -> Seq<int>
    decreases n,
{
    if n == 0 {
        Seq::empty()
    } else {
        let before = passing(entries, filters, (n - 1) as nat);
        if entry_passes(entries[n - 1], filters) {
            before.push(n - 1)
        } else {
            before
        }
    }
}

/// Whether `found` are the first `limit` entries that pass, in their order.
pub open spec fn is_selection(
    found: Seq<Found>,
    entries: Seq<TimelineEntry>,
    filters: SearchFilters,
    limit: nat,
) -> bool {
    let positions = passing(entries, filters, entries.len());
    &&& found.len() == (if positions.len() <= limit {
        positions.len()
    } else {
        limit
    })
    &&& forall|i: int|
        0 <= i < found.len() ==> (#[trigger] found[i]).file_id == entries[positions[i]].file_id
            && shows(found[i].item, entries[positions[i]])
}

/// The first `limit` entries that pass the filters, in their order.
pub fn select(entries: Vec<TimelineEntry>, filters: &SearchFilters, limit: u32) -> (r: Vec<Found>)
    ensures
        is_selection(r@, entries@, *filters, limit as nat),
{
    let ghost all = entries@;
    let mut queue: Vec<TimelineEntry> = Vec::new();
    let mut left = entries;
    while left.len() > 0
        invariant
            left@ == all.take(left@.len() as int),
            left@.len() + queue@.len() == all.len(),
            forall|i: int| 0 <= i < queue@.len() ==> #[trigger] queue@[i] == all[all.len() - 1 - i],
        decreases left.len(),
    {
        let ghost before = left@;
        match left.pop() {
            Some(entry) => {
                assert(before.last() == all[before.len() - 1]);
                queue.push(entry);
                assert(left@ =~= all.take(left@.len() as int));
            },
            None => {},
        }
    }
    let mut out: Vec<Found> = Vec::new();
    let ghost turned = queue@;
    while queue.len() > 0
        invariant
            queue@ == turned.take(queue@.len() as int),
            queue@.len() <= turned.len(),
            turned.len() == all.len(),
            forall|i: int|
                0 <= i < turned.len() ==> #[trigger] turned[i] == all[all.len() - 1 - i],
            ({
                let positions = passing(all, *filters, (all.len() - queue@.len()) as nat);
                &&& out@.len() == (if positions.len() <= limit {
                    positions.len()
                } else {
                    limit as nat
                })
                &&& forall|i: int|
                    0 <= i < out@.len() ==> (#[trigger] out@[i]).file_id
                        == all[positions[i]].file_id && shows(out@[i].item, all[positions[i]])
            }),
        decreases queue.len(),
    {
        let ghost before = queue@;
        let ghost k = all.len() - queue@.len();
        match queue.pop() {
            Some(entry) => {
                assert(before.last() == turned[before.len() - 1]);
                assert(entry == all[k]);
                assert(queue@ =~= turned.take(queue@.len() as int));
                let ghost positions = passing(all, *filters, k as nat);
                let ghost next = passing(all, *filters, (k + 1) as nat);
                if entry_matches_filters(&entry, filters) {
                    assert(next == positions.push(k));
                    if out.len() < limit as usize {
                        let file_id = entry.file_id;
                        out.push(Found { file_id, item: to_dto(entry) });
                    }
                }
            },
            None => {},
        }
    }
    out
}

/// Whether `found` is what a search gives for the files that lie nearest to its
/// query, nearest first.
pub open spec fn is_search_result(
    found: Seq<Found>,
    t: Tables,
    nearest: Seq<FileId>,
    filters: SearchFilters,
    limit: nat,
) -> bool {
    exists|entries: Seq<TimelineEntry>| #[trigger]
        are_latest(t, nearest, entries) && is_selection(found, entries, filters, limit)
}

/// What a search gives for the files that lie nearest to its query.
pub fn search_among(
    store: &Store,
    nearest: &[FileId],
    filters: &SearchFilters,
    limit: u32,
) -> (r: Vec<Found>)
    requires
        store.wf(),
    ensures
        is_search_result(r@, store@, nearest@, *filters, limit as nat),
{
    let entries = latest_for_file_ids(store, nearest);
    let ghost all = entries@;
    let found = select(entries, filters, limit);
    assert(are_latest(store@, nearest@, all));
    found
}

/// Filtering keeps the ranking: what is given stands in the order in which it
/// was ranked, and every one of it passes the filters.
pub proof fn filtering_keeps_the_ranking(
    entries: Seq<TimelineEntry>,
    filters: SearchFilters,
    n: nat,
)
    requires
        n <= entries.len(),
    ensures
        forall|i: int|
            0 <= i < passing(entries, filters, n).len() ==> 0 <= #[trigger] passing(
                entries,
                filters,
                n,
            )[i] < n && entry_passes(entries[passing(entries, filters, n)[i]], filters),
        forall|i: int, j: int|
            0 <= i < j < passing(entries, filters, n).len() ==> #[trigger] passing(
                entries,
                filters,
                n,
            )[i] < #[trigger] passing(entries, filters, n)[j],
        forall|k: int|
            0 <= k < n && entry_passes(#[trigger] entries[k], filters) ==> passing(
                entries,
                filters,
                n,
            ).contains(k),
    decreases n,
{
    if n > 0 {
        filtering_keeps_the_ranking(entries, filters, (n - 1) as nat);
        let before = passing(entries, filters, (n - 1) as nat);
        let after = passing(entries, filters, n);
        assert forall|k: int| 0 <= k < n && entry_passes(#[trigger] entries[k], filters) implies after.contains(
            k,
        ) by {
            if k < n - 1 {
                let i = choose|i: int| 0 <= i < before.len() && before[i] == k;
                assert(after[i] == k);
            } else {
                assert(after[after.len() - 1] == k);
            }
        }
    }
}

/// Without filters every entry passes, so a search gives as many as it was
/// asked for wherever there are so many.
pub proof fn without_filters_nothing_is_left_out(
    entries: Seq<TimelineEntry>,
    filters: SearchFilters,
    n: nat,
)
    requires
        n <= entries.len(),
        filters.sets_nothing(),
    ensures
        passing(entries, filters, n).len() == n,
        forall|i: int| 0 <= i < n ==> #[trigger] passing(entries, filters, n)[i] == i,
    decreases n,
{
    if n > 0 {
        without_filters_nothing_is_left_out(entries, filters, (n - 1) as nat);
    }
}

/// Whether every filter that is set is true of a file: the field of that name says that
/// very text.
pub open spec fn is_wanted(t: Tables, filters: SearchFilters, id: FileId) -> bool {
    let (doc_type, author, language, git_branch) = extracted(t, id);
    &&& is_that(filters.doc_type, doc_type)
    &&& is_that(filters.author, author)
    &&& is_that(filters.language, language)
    &&& is_that(filters.git_branch, git_branch)
    &&& is_that(filters.classification, classified(t, id))
}

/// Whether something has happened to a file.
pub open spec fn has_happened(t: Tables, id: FileId) -> bool {
    exists|k: int| 0 <= k < t.events.len() && (#[trigger] t.events[k]).file_id == id
}

/// Whether positions are in increasing order.
pub open spec fn increasing(at: Seq<int>) -> bool {
    forall|i: int, j: int| 0 <= i < j < at.len() ==> #[trigger] at[i] < #[trigger] at[j]
}

/// Every hit of a search is one of the files that lie nearest, shows the latest of what
/// happened to it, and has in each field that a filter is set for that very text. The
/// hits stand as they are ranked, and there are no more than were asked for.
pub proof fn every_hit_is_what_was_asked_for(
    found: Seq<Found>,
    t: Tables,
    nearest: Seq<FileId>,
    filters: SearchFilters,
    limit: nat,
)
    requires
        t.wf(),
        is_search_result(found, t, nearest, filters, limit),
    ensures
        found.len() <= limit,
        exists|at: Seq<int>| #[trigger]
            increasing(at) && at.len() == found.len() && (forall|i: int|
                0 <= i < found.len() ==> 0 <= #[trigger] at[i] < nearest.len() && nearest[at[i]]
                    == found[i].file_id),
        forall|i: int|
            0 <= i < found.len() ==> {
                let item = (#[trigger] found[i]).item;
                let id = found[i].file_id;
                &&& t.has_event(item.id)
                &&& t.events[item.id - 1].file_id == id
                &&& item.at_unix_ms == t.events[item.id - 1].at_unix_ms
                &&& forall|k: int|
                    0 <= k < t.events.len() && (#[trigger] t.events[k]).file_id == id
                        ==> t.events[k].at_unix_ms < item.at_unix_ms || (t.events[k].at_unix_ms
                        == item.at_unix_ms && k < item.id)
                &&& item.path@ == path_of(t, id)
                &&& is_wanted(t, filters, id)
                &&& is_that(filters.doc_type, item.doc_type)
                &&& is_that(filters.author, item.author)
                &&& is_that(filters.language, item.language)
                &&& is_that(filters.git_branch, item.git_branch)
                &&& is_that(filters.classification, item.classification)
            },
{
    let entries = choose|entries: Seq<TimelineEntry>| #[trigger]
        are_latest(t, nearest, entries) && is_selection(found, entries, filters, limit);
    let positions = passing(entries, filters, entries.len());
    filtering_keeps_the_ranking(entries, filters, entries.len());
    let from = lemma_latest_from(t, nearest, entries);
    let at = Seq::new(found.len(), |i: int| from[positions[i]]);
    assert forall|i: int, j: int| 0 <= i < j < at.len() implies #[trigger] at[i]
        < #[trigger] at[j] by {
        assert(positions[i] < positions[j]);
        assert(from[positions[i]] < from[positions[j]]);
    }
    assert forall|i: int| 0 <= i < found.len() implies 0 <= #[trigger] at[i] < nearest.len()
        && nearest[at[i]] == found[i].file_id by {
        assert(0 <= positions[i] < entries.len());
        assert(0 <= from[positions[i]] < nearest.len());
        assert(is_latest(t, nearest[at[i]], entries[positions[i]].id - 1));
    }
    assert(increasing(at));
    assert forall|i: int| 0 <= i < found.len() implies {
        let item = (#[trigger] found[i]).item;
        let id = found[i].file_id;
        &&& t.has_event(item.id)
        &&& t.events[item.id - 1].file_id == id
        &&& item.at_unix_ms == t.events[item.id - 1].at_unix_ms
        &&& forall|k: int|
            0 <= k < t.events.len() && (#[trigger] t.events[k]).file_id == id
                ==> t.events[k].at_unix_ms < item.at_unix_ms || (t.events[k].at_unix_ms
                == item.at_unix_ms && k < item.id)
        &&& item.path@ == path_of(t, id)
        &&& is_wanted(t, filters, id)
        &&& is_that(filters.doc_type, item.doc_type)
        &&& is_that(filters.author, item.author)
        &&& is_that(filters.language, item.language)
        &&& is_that(filters.git_branch, item.git_branch)
        &&& is_that(filters.classification, item.classification)
    } by {
        let entry = entries[positions[i]];
        let item = found[i].item;
        assert(0 <= positions[i] < entries.len());
        assert(entry_passes(entry, filters));
        assert(0 <= from[positions[i]] < nearest.len());
        assert(is_latest(t, entry.file_id, entry.id - 1));
        assert forall|k: int|
            0 <= k < t.events.len() && (#[trigger] t.events[k]).file_id
                == entry.file_id implies t.events[k].at_unix_ms < item.at_unix_ms || (t.events[k].at_unix_ms
            == item.at_unix_ms && k < item.id) by {
            if k != entry.id - 1 {
                assert(event_key(t, entry.id - 1).before(event_key(t, k)));
            }
        }
    }
}

/// No file that lies near enough and that every filter is true of is passed over: where
/// fewer are given than were asked for, each such file that something has happened to
/// is among them.
pub proof fn no_wanted_file_is_passed_over(
    found: Seq<Found>,
    t: Tables,
    nearest: Seq<FileId>,
    filters: SearchFilters,
    limit: nat,
    n: int,
)
    requires
        t.wf(),
        is_search_result(found, t, nearest, filters, limit),
        found.len() < limit,
        0 <= n < nearest.len(),
        has_happened(t, nearest[n]),
        is_wanted(t, filters, nearest[n]),
    ensures
        exists|i: int| 0 <= i < found.len() && (#[trigger] found[i]).file_id == nearest[n],
{
    let entries = choose|entries: Seq<TimelineEntry>| #[trigger]
        are_latest(t, nearest, entries) && is_selection(found, entries, filters, limit);
    let positions = passing(entries, filters, entries.len());
    filtering_keeps_the_ranking(entries, filters, entries.len());
    lemma_some_latest(t, nearest[n]);
    let e = lemma_latest_listed(t, nearest, entries, n);
    let entry = entries[e];
    assert(entry_passes(entry, filters));
    let i = choose|i: int| 0 <= i < positions.len() && positions[i] == e;
    assert(found[i].file_id == nearest[n]);
}

/// Where something has happened to a file, something happened last.
proof fn lemma_some_latest(t: Tables, id: FileId)
    requires
        t.wf(),
        has_happened(t, id),
    ensures
        exists|k: int| is_latest(t, id, k),
{
    let k = choose|k: int| 0 <= k < t.events.len() && (#[trigger] t.events[k]).file_id == id;
    let best = lemma_latest_among(t, id, t.events.len());
    assert(is_latest(t, id, best));
}

proof fn lemma_latest_among(t: Tables, id: FileId, n: nat) -> (best: int)
    requires
        t.wf(),
        n <= t.events.len(),
        exists|k: int| 0 <= k < n && (#[trigger] t.events[k]).file_id == id,
    ensures
        0 <= best < n,
        t.events[best].file_id == id,
        forall|j: int|
            0 <= j < n && j != best && (#[trigger] t.events[j]).file_id == id ==> event_key(
                t,
                best,
            ).before(event_key(t, j)),
    decreases n,
{
    if exists|k: int| 0 <= k < n - 1 && (#[trigger] t.events[k]).file_id == id {
        let best = lemma_latest_among(t, id, (n - 1) as nat);
        if t.events[n - 1].file_id == id && event_key(t, n - 1).before(event_key(t, best)) {
            n - 1
        } else {
            best
        }
    } else {
        n - 1
    }
}

/// Which of the files each entry is the latest of, in order.
proof fn lemma_latest_from(t: Tables, ids: Seq<FileId>, entries: Seq<TimelineEntry>) -> (from: Seq<
    int,
>)
    requires
        are_latest(t, ids, entries),
    ensures
        from.len() == entries.len(),
        increasing(from),
        forall|i: int|
            0 <= i < from.len() ==> 0 <= #[trigger] from[i] < ids.len() && is_entry(t, entries[i])
                && is_latest(t, ids[from[i]], entries[i].id - 1),
    decreases ids.len(),
{
    if ids.len() == 0 {
        Seq::empty()
    } else if exists|k: int| is_latest(t, ids.last(), k) {
        let before = lemma_latest_from(t, ids.drop_last(), entries.drop_last());
        let from = before.push(ids.len() - 1);
        assert forall|i: int| 0 <= i < from.len() implies 0 <= #[trigger] from[i] < ids.len()
            && is_entry(t, entries[i]) && is_latest(t, ids[from[i]], entries[i].id - 1) by {
            if i < before.len() {
                assert(from[i] == before[i]);
                assert(entries.drop_last()[i] == entries[i]);
            }
        }
        assert forall|i: int, j: int| 0 <= i < j < from.len() implies #[trigger] from[i]
            < #[trigger] from[j] by {
            assert(from[i] == before[i]);
            if j < before.len() {
                assert(from[j] == before[j]);
            }
        }
        from
    } else {
        lemma_latest_from(t, ids.drop_last(), entries)
    }
}

/// The latest of what happened to each file is among the entries.
proof fn lemma_latest_listed(t: Tables, ids: Seq<FileId>, entries: Seq<TimelineEntry>, n: int) -> (e:
    int)
    requires
        are_latest(t, ids, entries),
        0 <= n < ids.len(),
        exists|k: int| is_latest(t, ids[n], k),
    ensures
        0 <= e < entries.len(),
        is_entry(t, entries[e]),
        is_latest(t, ids[n], entries[e].id - 1),
    decreases ids.len(),
{
    if n < ids.len() - 1 {
        assert(ids.drop_last()[n] == ids[n]);
    }
    let k = choose|k: int| is_latest(t, ids[n], k);
    if n == ids.len() - 1 {
        assert(is_latest(t, ids.last(), k));
        entries.len() - 1
    } else if exists|k: int| is_latest(t, ids.last(), k) {
        lemma_latest_listed(t, ids.drop_last(), entries.drop_last(), n)
    } else {
        lemma_latest_listed(t, ids.drop_last(), entries, n)
    }
}

/// Of each file that something has happened to the last of it is given, once for each time
/// the file is asked for, in the order that the files are asked for.
pub proof fn the_last_that_happened_is_given(
    t: Tables,
    ids: Seq<FileId>,
    entries: Seq<TimelineEntry>,
    n: int,
)
    requires
        t.wf(),
        are_latest(t, ids, entries),
        0 <= n < ids.len(),
    ensures
        exists|at: Seq<int>| #[trigger]
            increasing(at) && at.len() == entries.len() && (forall|i: int|
                0 <= i < entries.len() ==> 0 <= #[trigger] at[i] < ids.len() && ids[at[i]]
                    == entries[i].file_id),
        forall|i: int, k: int|
            0 <= i < entries.len() && 0 <= k < t.events.len() && (#[trigger] t.events[k]).file_id
                == (#[trigger] entries[i]).file_id ==> t.events[k].at_unix_ms
                < entries[i].at_unix_ms || (t.events[k].at_unix_ms == entries[i].at_unix_ms && k
                < entries[i].id),
        has_happened(t, ids[n]) ==> exists|i: int|
            0 <= i < entries.len() && (#[trigger] entries[i]).file_id == ids[n],
{
    let from = lemma_latest_from(t, ids, entries);
    assert forall|i: int| 0 <= i < entries.len() implies 0 <= #[trigger] from[i] < ids.len()
        && ids[from[i]] == entries[i].file_id by {
        assert(is_latest(t, ids[from[i]], entries[i].id - 1));
    }
    assert(increasing(from));
    assert forall|i: int, k: int|
        0 <= i < entries.len() && 0 <= k < t.events.len() && (#[trigger] t.events[k]).file_id == (
        #[trigger] entries[i]).file_id implies t.events[k].at_unix_ms < entries[i].at_unix_ms || (
    t.events[k].at_unix_ms == entries[i].at_unix_ms && k < entries[i].id) by {
        assert(ids[from[i]] == entries[i].file_id);
        assert(is_latest(t, ids[from[i]], entries[i].id - 1));
        if k != entries[i].id - 1 {
            assert(event_key(t, entries[i].id - 1).before(event_key(t, k)));
        }
    }
    if has_happened(t, ids[n]) {
        lemma_some_latest(t, ids[n]);
        let e = lemma_latest_listed(t, ids, entries, n);
        assert(entries[e].file_id == ids[n]);
    }
}

/// Of entries those are selected that have in each field a filter is set for that very
/// text, in their order, and all of them where fewer are selected than were asked for.
pub proof fn every_entry_that_passes_is_selected(
    found: Seq<Found>,
    entries: Seq<TimelineEntry>,
    filters: SearchFilters,
    limit: nat,
    k: int,
)
    requires
        is_selection(found, entries, filters, limit),
        0 <= k < entries.len(),
    ensures
        found.len() <= limit,
        exists|at: Seq<int>| #[trigger]
            increasing(at) && at.len() == found.len() && (forall|i: int|
                0 <= i < found.len() ==> 0 <= #[trigger] at[i] < entries.len() && entries[at[i]].id
                    == found[i].item.id && entries[at[i]].file_id == found[i].file_id),
        forall|i: int|
            0 <= i < found.len() ==> {
                let item = (#[trigger] found[i]).item;
                &&& is_that(filters.doc_type, item.doc_type)
                &&& is_that(filters.author, item.author)
                &&& is_that(filters.language, item.language)
                &&& is_that(filters.git_branch, item.git_branch)
                &&& is_that(filters.classification, item.classification)
            },
        found.len() < limit && is_that(filters.doc_type, entries[k].doc_type) && is_that(
            filters.author,
            entries[k].author,
        ) && is_that(filters.language, entries[k].language) && is_that(
            filters.git_branch,
            entries[k].git_branch,
        ) && is_that(filters.classification, entries[k].classification) ==> exists|i: int|
            0 <= i < found.len() && (#[trigger] found[i]).item.id == entries[k].id,
{
    let positions = passing(entries, filters, entries.len());
    filtering_keeps_the_ranking(entries, filters, entries.len());
    let at = positions.take(found.len() as int);
    assert forall|i: int, j: int| 0 <= i < j < at.len() implies #[trigger] at[i]
        < #[trigger] at[j] by {
        assert(positions[i] < positions[j]);
    }
    assert forall|i: int| 0 <= i < found.len() implies 0 <= #[trigger] at[i] < entries.len()
        && entries[at[i]].id == found[i].item.id && entries[at[i]].file_id == found[i].file_id by {
        assert(0 <= positions[i] < entries.len());
    }
    assert(increasing(at));
    assert forall|i: int| 0 <= i < found.len() implies {
        let item = (#[trigger] found[i]).item;
        &&& is_that(filters.doc_type, item.doc_type)
        &&& is_that(filters.author, item.author)
        &&& is_that(filters.language, item.language)
        &&& is_that(filters.git_branch, item.git_branch)
        &&& is_that(filters.classification, item.classification)
    } by {
        assert(0 <= positions[i] < entries.len());
        assert(entry_passes(entries[positions[i]], filters));
    }
    if found.len() < limit && is_that(filters.doc_type, entries[k].doc_type) && is_that(
        filters.author,
        entries[k].author,
    ) && is_that(filters.language, entries[k].language) && is_that(
        filters.git_branch,
        entries[k].git_branch,
    ) && is_that(filters.classification, entries[k].classification) {
        assert(entry_passes(entries[k], filters));
        let i = choose|i: int| 0 <= i < positions.len() && positions[i] == k;
        assert(found[i].item.id == entries[k].id);
    }
}

} // verus!
