//! Which of the text in the parts of an office document is taken, said by where it
//! stands among the tags.
use vstd::prelude::*;

use crate::archive::{part_content, part_names, Content, Listing};
use crate::extract::Extraction;
use crate::office::{
    cell_is_shared, detected_language, entry_text, finishes, in_shared_value, inside, is_broken,
    is_docx_outcome, is_outcome, is_pptx_outcome, is_xlsx_outcome, language_of, name_order,
    open_property, ordered_parts, paragraph_text, part_events, part_read, part_text, parts_text,
    property_in, property_text, sheet_text, starts, table_of, Reading,
};
use crate::text::{
    a_text_begins_with_what_stands_in_front, begins, decimal, ends, lemma_sorts_before_total,
    lowercase, sorts_before, text_view, trimmed, words_upto,
};
use crate::xml::{is_named, XmlItem};

verus! {

/// Whether the tag at `j` opens an element of that name around what stands at `k`.
pub open spec fn opens_around(items: Seq<XmlItem>, name: Seq<char>, j: int, k: int) -> bool {
    &&& 0 <= j < k
    &&& items[j] matches XmlItem::Start { local, .. } && is_named(local, name)
    &&& forall|m: int|
        j < m < k ==> match #[trigger] items[m] {
            XmlItem::Start { local, .. } => !is_named(local, name),
            XmlItem::End { local } => !is_named(local, name),
            _ => true,
        }
}

/// Whether what stands at `k` stands inside an element of that name.
pub open spec fn stands_in(items: Seq<XmlItem>, name: Seq<char>, k: int) -> bool {
    exists|j: int| opens_around(items, name, j, k)
}

/// The text that stands inside text elements between two places, in order.
pub open spec fn spoken(items: Seq<XmlItem>, from: int, to: int) -> Seq<char>
    decreases to - from,
{
    if to <= from {
        Seq::empty()
    } else {
        match items[to - 1] {
            XmlItem::Text(Some(text)) => if stands_in(items, "t"@, to - 1) {
                spoken(items, from, to - 1) + text
            } else {
                spoken(items, from, to - 1)
            },
            _ => spoken(items, from, to - 1),
        }
    }
}

/// What a reader takes for the inside of an element is the inside of one.
proof fn lemma_inside(items: Seq<XmlItem>, name: Seq<char>, k: int)
    requires
        0 <= k <= items.len(),
    ensures
        inside(items.take(k), name) == stands_in(items, name, k),
    decreases k,
{
    if k > 0 {
        lemma_inside(items, name, k - 1);
        assert(items.take(k).drop_last() =~= items.take(k - 1));
        assert(items.take(k).last() == items[k - 1]);
        let last = items[k - 1];
        if starts(last, name) {
            assert(opens_around(items, name, k - 1, k));
        } else if finishes(last, name) {
            assert forall|j: int| !opens_around(items, name, j, k) by {
                if opens_around(items, name, j, k) && j < k - 1 {
                    assert(items[k - 1] is End);
                }
            }
        } else {
            if stands_in(items, name, k - 1) {
                let before = k - 1;
                let j = choose|j: int| opens_around(items, name, j, before);
                assert(opens_around(items, name, j, k));
            }
            if stands_in(items, name, k) {
                let j = choose|j: int| opens_around(items, name, j, k);
                assert(opens_around(items, name, j, k - 1));
            }
        }
    } else {
        assert(items.take(0).len() == 0);
    }
}

/// The text between two places is that up to any place between them followed by that
/// from there on: the text of one run and then that of the next.
pub proof fn runs_follow_one_another(items: Seq<XmlItem>, a: int, b: int, c: int)
    requires
        a <= b <= c,
    ensures
        spoken(items, a, c) == spoken(items, a, b) + spoken(items, b, c),
    decreases c - b,
{
    if b < c {
        runs_follow_one_another(items, a, b, c - 1);
    }
    assert(spoken(items, a, c) =~= spoken(items, a, b) + spoken(items, b, c));
}

/// Where a text stands alone in one text element, that is what it says.
pub proof fn a_run_says_its_text(items: Seq<XmlItem>, k: int, text: Seq<char>)
    requires
        0 < k < items.len(),
        items[k - 1] matches XmlItem::Start { local, .. } && is_named(local, "t"@),
        items[k] == XmlItem::Text(Some(text)),
    ensures
        spoken(items, k, k + 1) == text,
{
    assert(opens_around(items, "t"@, k - 1, k));
    reveal_with_fuel(spoken, 2);
    assert(spoken(items, k, k + 1) =~= text);
}

// Documents and slides.

/// Between two ends of paragraphs the text of a document or a slide is what stands
/// inside text elements there, and nothing else.
pub proof fn a_paragraph_is_the_text_of_its_runs(items: Seq<XmlItem>, from: int, to: int)
    requires
        0 <= from <= to <= items.len(),
        forall|m: int|
            from <= m < to ==> (#[trigger] items[m] matches XmlItem::End { local } ==> !is_named(
                local,
                "p"@,
            )),
    ensures
        paragraph_text(items.take(to)) == paragraph_text(items.take(from)) + spoken(
            items,
            from,
            to,
        ),
    decreases to - from,
{
    if from < to {
        a_paragraph_is_the_text_of_its_runs(items, from, to - 1);
        lemma_inside(items, "t"@, to - 1);
        assert(items.take(to).drop_last() =~= items.take(to - 1));
        assert(items.take(to).last() == items[to - 1]);
        assert(!finishes(items[to - 1], "p"@));
    }
    assert(paragraph_text(items.take(to)) =~= paragraph_text(items.take(from)) + spoken(
        items,
        from,
        to,
    ));
}

/// Behind every paragraph stands a line break.
pub proof fn a_paragraph_ends_its_line(items: Seq<XmlItem>, k: int)
    requires
        0 <= k < items.len(),
        items[k] matches XmlItem::End { local } && is_named(local, "p"@),
    ensures
        paragraph_text(items.take(k + 1)) == paragraph_text(items.take(k)).push('\n'),
{
    assert(items.take(k + 1).drop_last() =~= items.take(k));
    assert(items.take(k + 1).last() == items[k]);
    reveal_strlit("t");
    reveal_strlit("p");
    if finishes(items[k], "t"@) {
        let local = items[k]->End_local;
        assert(local[0] as int == "t"@[0] as int);
        assert(local[0] as int == "p"@[0] as int);
    }
}

// Shared strings.

/// One entry of the table of shared strings is all the text that stands inside text
/// elements between the two tags of its element, whatever runs it is cut into; the
/// entries before it stay.
pub proof fn a_shared_string_is_all_the_text_of_its_element(
    items: Seq<XmlItem>,
    from: int,
    to: int,
)
    requires
        0 <= from < to < items.len(),
        items[from] matches XmlItem::Start { local, .. } && is_named(local, "si"@),
        items[to] matches XmlItem::End { local } && is_named(local, "si"@),
        forall|m: int|
            from < m < to ==> match #[trigger] items[m] {
                XmlItem::Start { local, .. } => !is_named(local, "si"@),
                XmlItem::End { local } => !is_named(local, "si"@),
                _ => true,
            },
    ensures
        table_of(items.take(to + 1)) == table_of(items.take(from)).push(
            spoken(items, from + 1, to),
        ),
{
    lemma_entry(items, from, to);
    assert(items.take(to + 1).drop_last() =~= items.take(to));
    assert(items.take(to + 1).last() == items[to]);
}

proof fn lemma_entry(items: Seq<XmlItem>, from: int, k: int)
    requires
        0 <= from < k <= items.len(),
        starts(items[from], "si"@),
        forall|m: int|
            from < m < k ==> match #[trigger] items[m] {
                XmlItem::Start { local, .. } => !is_named(local, "si"@),
                XmlItem::End { local } => !is_named(local, "si"@),
                _ => true,
            },
    ensures
        entry_text(items.take(k)) == spoken(items, from + 1, k),
        table_of(items.take(k)) == table_of(items.take(from)),
    decreases k - from,
{
    assert(items.take(k).drop_last() =~= items.take(k - 1));
    assert(items.take(k).last() == items[k - 1]);
    if k > from + 1 {
        lemma_entry(items, from, k - 1);
        lemma_inside(items, "t"@, k - 1);
        assert(!starts(items[k - 1], "si"@) && !finishes(items[k - 1], "si"@));
        assert(entry_text(items.take(k)) =~= spoken(items, from + 1, k));
    } else {
        assert(items.take(from + 1).drop_last() =~= items.take(from));
        assert(entry_text(items.take(k)) =~= spoken(items, from + 1, k));
    }
}

/// Nothing but the end of such an element adds an entry.
pub proof fn only_shared_strings_are_entries(items: Seq<XmlItem>, k: int)
    requires
        0 <= k < items.len(),
        items[k] matches XmlItem::End { local } ==> !is_named(local, "si"@),
    ensures
        table_of(items.take(k + 1)) == table_of(items.take(k)),
        table_of(items.take(0)).len() == 0,
{
    assert(items.take(k + 1).drop_last() =~= items.take(k));
    assert(items.take(k + 1).last() == items[k]);
}

// Worksheets.

/// Whether the tag at `c` begins the cell that the tag at `v` is in.
pub open spec fn is_cell_of(items: Seq<XmlItem>, c: int, v: int) -> bool {
    &&& 0 <= c < v
    &&& items[c] matches XmlItem::Start { local, .. } && is_named(local, "c"@)
    &&& forall|m: int|
        c < m < v ==> (#[trigger] items[m] matches XmlItem::Start { local, .. } ==> !is_named(
            local,
            "c"@,
        ))
}

/// Whether what stands at `k` is the value of a cell that refers to the table of shared
/// strings.
pub open spec fn is_reference(items: Seq<XmlItem>, k: int) -> bool {
    exists|c: int, v: int| #[trigger]
        is_shared_cell_of(items, c, v) && #[trigger] opens_around(items, "v"@, v, k)
}

/// Whether the tag at `c` begins the cell that the tag at `v` is in, and says that its
/// value is a position in the table of shared strings.
pub open spec fn is_shared_cell_of(items: Seq<XmlItem>, c: int, v: int) -> bool {
    is_cell_of(items, c, v) && (items[c]->attribute matches Some(kind) && is_named(kind, "s"@))
}

/// An inline string is taken as it is, and a space stands behind it.
pub proof fn an_inline_string_is_taken(items: Seq<XmlItem>, table: Seq<Seq<char>>, k: int)
    requires
        0 <= k < items.len(),
    ensures
        items[k] matches XmlItem::Text(Some(text)) ==> (stands_in(items, "t"@, k) ==> sheet_text(
            items.take(k + 1),
            table,
        ) == sheet_text(items.take(k), table) + text),
        items[k] matches XmlItem::End { local } ==> (is_named(local, "t"@) ==> sheet_text(
            items.take(k + 1),
            table,
        ) == sheet_text(items.take(k), table).push(' ')),
{
    lemma_inside(items, "t"@, k);
    assert(items.take(k + 1).drop_last() =~= items.take(k));
    assert(items.take(k + 1).last() == items[k]);
}

/// A cell that refers to the table says the entry at the position that its value names,
/// with a space behind it, and nothing where there is no such entry.
pub proof fn a_reference_says_its_entry(
    items: Seq<XmlItem>,
    table: Seq<Seq<char>>,
    k: int,
    n: nat,
)
    requires
        0 <= k < items.len(),
        items[k] == XmlItem::Text(Some(decimal(n))),
        is_reference(items, k),
        !stands_in(items, "t"@, k),
        n <= usize::MAX,
    ensures
        sheet_text(items.take(k + 1), table) == sheet_text(items.take(k), table) + (if n
            < table.len() {
            table[n as int].push(' ')
        } else {
            Seq::empty()
        }),
{
    lemma_inside(items, "t"@, k);
    lemma_reference(items, k);
    crate::text::a_number_written_is_read_back(n, usize::MAX as nat);
    assert(items.take(k + 1).drop_last() =~= items.take(k));
    assert(items.take(k + 1).last() == items[k]);
}

/// A line break stands behind every row.
pub proof fn a_row_ends_its_line(items: Seq<XmlItem>, table: Seq<Seq<char>>, k: int)
    requires
        0 <= k < items.len(),
        items[k] matches XmlItem::End { local } && is_named(local, "row"@),
    ensures
        sheet_text(items.take(k + 1), table) == sheet_text(items.take(k), table).push('\n'),
{
    assert(items.take(k + 1).drop_last() =~= items.take(k));
    assert(items.take(k + 1).last() == items[k]);
    reveal_strlit("t");
    reveal_strlit("row");
}

/// Nothing else in a worksheet is text: not numbers or other values, and no other tags.
pub proof fn nothing_else_in_a_sheet_is_text(items: Seq<XmlItem>, table: Seq<Seq<char>>, k: int)
    requires
        0 <= k < items.len(),
        match items[k] {
            XmlItem::End { local } => !is_named(local, "t"@) && !is_named(local, "row"@),
            XmlItem::Text(Some(_)) => !stands_in(items, "t"@, k) && !is_reference(items, k),
            _ => true,
        },
    ensures
        sheet_text(items.take(k + 1), table) == sheet_text(items.take(k), table),
        sheet_text(items.take(0), table).len() == 0,
{
    lemma_inside(items, "t"@, k);
    lemma_reference(items, k);
    assert(items.take(k + 1).drop_last() =~= items.take(k));
    assert(items.take(k + 1).last() == items[k]);
}

proof fn lemma_cell(items: Seq<XmlItem>, v: int)
    requires
        0 <= v <= items.len(),
    ensures
        cell_is_shared(items.take(v)) <==> exists|c: int| #[trigger]
            is_shared_cell_of(items, c, v),
    decreases v,
{
    if v > 0 {
        lemma_cell(items, v - 1);
        assert(items.take(v).drop_last() =~= items.take(v - 1));
        assert(items.take(v).last() == items[v - 1]);
        let last = items[v - 1];
        if starts(last, "c"@) {
            assert(is_cell_of(items, v - 1, v));
            assert(cell_is_shared(items.take(v)) == is_shared_cell_of(items, v - 1, v));
            assert forall|c: int| #[trigger] is_shared_cell_of(items, c, v) implies c == v
                - 1 by {
                if c < v - 1 {
                    assert(items[v - 1] is Start);
                }
            }
        } else {
            let before = v - 1;
            assert(cell_is_shared(items.take(v)) == cell_is_shared(items.take(before)));
            if exists|c: int| is_shared_cell_of(items, c, before) {
                let c = choose|c: int| is_shared_cell_of(items, c, before);
                assert(is_shared_cell_of(items, c, v));
            }
            if exists|c: int| is_shared_cell_of(items, c, v) {
                let c = choose|c: int| is_shared_cell_of(items, c, v);
                assert(is_shared_cell_of(items, c, before));
            }
        }
    }
}

proof fn lemma_reference(items: Seq<XmlItem>, k: int)
    requires
        0 <= k <= items.len(),
    ensures
        in_shared_value(items.take(k)) == is_reference(items, k),
    decreases k,
{
    if k > 0 {
        lemma_reference(items, k - 1);
        assert(items.take(k).drop_last() =~= items.take(k - 1));
        assert(items.take(k).last() == items[k - 1]);
        let last = items[k - 1];
        if starts(last, "v"@) {
            lemma_cell(items, k - 1);
            assert(opens_around(items, "v"@, k - 1, k));
            let at = k - 1;
            if is_reference(items, k) {
                let (c, v) = choose|c: int, v: int| #[trigger]
                    is_shared_cell_of(items, c, v) && #[trigger] opens_around(
                        items,
                        "v"@,
                        v,
                        k,
                    );
                if v < k - 1 {
                    assert(items[k - 1] is Start);
                }
                assert(is_shared_cell_of(items, c, at));
            }
            if exists|c: int| is_shared_cell_of(items, c, at) {
                let c = choose|c: int| is_shared_cell_of(items, c, at);
                assert(is_reference(items, k));
            }
        } else if finishes(last, "v"@) {
            assert forall|v: int| !opens_around(items, "v"@, v, k) by {
                if opens_around(items, "v"@, v, k) && v < k - 1 {
                    assert(items[k - 1] is End);
                }
            }
        } else {
            let before = k - 1;
            if is_reference(items, k) {
                let (c, v) = choose|c: int, v: int| #[trigger]
                    is_shared_cell_of(items, c, v) && #[trigger] opens_around(
                        items,
                        "v"@,
                        v,
                        k,
                    );
                assert(opens_around(items, "v"@, v, before));
                assert(is_reference(items, before));
            }
            if is_reference(items, before) {
                let (c, v) = choose|c: int, v: int| #[trigger]
                    is_shared_cell_of(items, c, v) && #[trigger] opens_around(
                        items,
                        "v"@,
                        v,
                        before,
                    );
                assert(opens_around(items, "v"@, v, k));
                assert(is_reference(items, k));
            }
        }
    } else {
        assert(items.take(0).len() == 0);
    }
}

// Properties.

/// Whether what stands at `k` is a text of a property: the tag right before it begins
/// the element of the title, or of the author.
pub open spec fn is_property_text(items: Seq<XmlItem>, title: bool, k: int) -> bool {
    &&& 0 <= k < items.len()
    &&& items[k] matches XmlItem::Text(Some(text)) && text.len() > 0
    &&& exists|j: int| #[trigger] is_property_tag(items, title, j, k)
}

/// Whether the tag at `j`, the last one before `k`, begins the element of the title, or
/// of the author.
pub open spec fn is_property_tag(items: Seq<XmlItem>, title: bool, j: int, k: int) -> bool {
    &&& 0 <= j < k
    &&& items[j] matches XmlItem::Start { local, .. } && is_named(
        local,
        if title {
            "title"@
        } else {
            "creator"@
        },
    )
    &&& forall|m: int| j < m < k ==> !(#[trigger] items[m] is Start) && !(items[m] is End)
}

/// A property is the first text of its element that is not empty; without such a text
/// there is none. A part that is not well formed gives neither property.
pub proof fn a_property_is_its_first_text(items: Seq<XmlItem>, title: bool)
    ensures
        is_broken(items) ==> property_in(items, title) is None,
        !is_broken(items) ==> match property_in(items, title) {
            Some(found) => exists|k: int| #[trigger]
                is_property_text(items, title, k) && items[k] == XmlItem::Text(Some(found)) && (
                forall|m: int| 0 <= m < k ==> !is_property_text(items, title, m)),
            None => forall|k: int| !is_property_text(items, title, k),
        },
{
    lemma_property(items, title, items.len() as int);
    assert(items.take(items.len() as int) =~= items);
}

proof fn lemma_open_property(items: Seq<XmlItem>, title: bool, k: int)
    requires
        0 <= k <= items.len(),
    ensures
        open_property(items.take(k)) == Some(title) <==> exists|j: int| #[trigger]
            is_property_tag(items, title, j, k),
    decreases k,
{
    if k > 0 {
        lemma_open_property(items, title, k - 1);
        assert(items.take(k).drop_last() =~= items.take(k - 1));
        assert(items.take(k).last() == items[k - 1]);
        reveal_strlit("title");
        reveal_strlit("creator");
        match items[k - 1] {
            XmlItem::Start { local, .. } => {
                if open_property(items.take(k)) == Some(title) {
                    assert(is_property_tag(items, title, k - 1, k));
                }
                assert forall|j: int| #[trigger] is_property_tag(items, title, j, k) implies j == k
                    - 1 by {
                    if j < k - 1 {
                        assert(items[k - 1] is Start);
                    }
                }
            },
            XmlItem::End { .. } => {
                assert forall|j: int| !is_property_tag(items, title, j, k) by {
                    if is_property_tag(items, title, j, k) && j < k - 1 {
                        assert(items[k - 1] is End);
                    }
                }
            },
            _ => {
                let before = k - 1;
                if exists|j: int| is_property_tag(items, title, j, before) {
                    let j = choose|j: int| is_property_tag(items, title, j, before);
                    assert(is_property_tag(items, title, j, k));
                }
                if exists|j: int| is_property_tag(items, title, j, k) {
                    let j = choose|j: int| is_property_tag(items, title, j, k);
                    assert(is_property_tag(items, title, j, before));
                }
            },
        }
    }
}

proof fn lemma_property(items: Seq<XmlItem>, title: bool, n: int)
    requires
        0 <= n <= items.len(),
    ensures
        match property_text(items.take(n), title) {
            Some(found) => exists|k: int| #[trigger]
                is_property_text(items, title, k) && k < n && items[k] == XmlItem::Text(
                    Some(found),
                ) && (forall|m: int| 0 <= m < k ==> !is_property_text(items, title, m)),
            None => forall|k: int| 0 <= k < n ==> !is_property_text(items, title, k),
        },
    decreases n,
{
    if n > 0 {
        lemma_property(items, title, n - 1);
        lemma_open_property(items, title, n - 1);
        assert(items.take(n).drop_last() =~= items.take(n - 1));
        assert(items.take(n).last() == items[n - 1]);
        if property_text(items.take(n - 1), title) is None {
            if property_text(items.take(n), title) is Some {
                assert(is_property_text(items, title, n - 1));
            }
        }
    }
}

// Parts.

/// The parts that are read are just those of the archive whose names begin and end as
/// asked for, in the order of their names.
pub proof fn matching_parts_are_in_order(
    names: Seq<Seq<char>>,
    prefix: Seq<char>,
    suffix: Seq<char>,
)
    ensures
        ({
            let parts = ordered_parts(names, prefix, suffix);
            &&& forall|i: int|
                0 <= i < parts.len() ==> names.contains(#[trigger] parts[i]) && begins(
                    parts[i],
                    prefix,
                ) && ends(parts[i], suffix)
            &&& forall|k: int|
                0 <= k < names.len() && begins(#[trigger] names[k], prefix) && ends(
                    names[k],
                    suffix,
                ) ==> parts.contains(names[k])
            &&& forall|i: int, j: int|
                0 <= i < j < parts.len() ==> #[trigger] parts[i] == #[trigger] parts[j]
                    || sorts_before(parts[i], parts[j])
        }),
{
    let keep = |name: Seq<char>| crate::office::is_part_named(name, prefix, suffix);
    let kept = names.filter(keep);
    let parts = ordered_parts(names, prefix, suffix);
    crate::office::lemma_name_order();
    kept.lemma_sort_by_ensures(name_order());
    broadcast use vstd::seq_lib::group_to_multiset_ensures;

    assert forall|i: int| 0 <= i < parts.len() implies names.contains(#[trigger] parts[i])
        && begins(parts[i], prefix) && ends(parts[i], suffix) by {
        assert(parts.contains(parts[i]));
        assert(kept.contains(parts[i]));
        names.lemma_filter_contains_rev(keep, parts[i]);
        let k = choose|k: int| 0 <= k < kept.len() && kept[k] == parts[i];
        names.lemma_filter_pred(keep, k);
    }
    assert forall|k: int|
        0 <= k < names.len() && begins(#[trigger] names[k], prefix) && ends(
            names[k],
            suffix,
        ) implies parts.contains(names[k]) by {
        names.lemma_filter_contains(keep, k);
        assert(kept.to_multiset().count(names[k]) > 0);
        assert(parts.to_multiset().count(names[k]) > 0);
    }
    let leq = name_order();
    assert forall|i: int, j: int| 0 <= i < j < parts.len() implies #[trigger] parts[i]
        == #[trigger] parts[j] || sorts_before(parts[i], parts[j]) by {
        assert(leq(parts[i], parts[j]));
        lemma_sorts_before_total(parts[i], parts[j]);
    }
}

// Whole documents.

/// The text of several parts is that of the first of them followed by that of the others;
/// each has a line break behind it. Where one of them cannot be had there is no text.
pub proof fn parts_follow_one_another(
    bytes: Seq<u8>,
    names: Seq<Seq<char>>,
    more: Seq<Seq<char>>,
    table: Option<Seq<Seq<char>>>,
)
    ensures
        parts_text(bytes, names + more, table) is Text <==> parts_text(bytes, names, table) is Text
            && parts_text(bytes, more, table) is Text,
        parts_text(bytes, names + more, table) is Text ==> parts_text(bytes, names + more, table)
            == Reading::Text(
            parts_text(bytes, names, table)->Text_0 + parts_text(bytes, more, table)->Text_0,
        ),
    decreases more.len(),
{
    if more.len() == 0 {
        assert(names + more =~= names);
        let whole = parts_text(bytes, names, table);
        if whole is Text {
            assert(whole->Text_0 + Seq::<char>::empty() =~= whole->Text_0);
        }
    } else {
        parts_follow_one_another(bytes, names, more.drop_last(), table);
        assert((names + more).drop_last() =~= names + more.drop_last());
        assert((names + more).last() == more.last());
        if parts_text(bytes, names + more, table) is Text {
            let a = parts_text(bytes, names, table)->Text_0;
            let b = parts_text(bytes, more.drop_last(), table)->Text_0;
            let c = part_text(part_read(bytes, more.last()), more.last(), table)->Text_0;
            assert((a + b + c).push('\n') =~= a + (b + c).push('\n'));
        }
    }
}

/// One part has the text of its cells where there is a table of shared strings, and of its
/// paragraphs where there is none. At most 64 megabytes of it are looked at. A part that
/// cannot be had is named, unless it was there and could not be read to its end.
pub proof fn a_part_is_read_up_to_its_limit(
    bytes: Seq<u8>,
    name: Seq<char>,
    table: Option<Seq<Seq<char>>>,
)
    ensures
        ({
            let reading = parts_text(bytes, seq![name], table);
            match part_content(bytes, name, 64 * 1024 * 1024) {
                Content::Bytes(xml) => reading == Reading::Text(
                    (match table {
                        Some(shared) => sheet_text(part_events(xml, false), shared),
                        None => paragraph_text(part_events(xml, false)),
                    }) + seq!['\n'],
                ),
                Content::Missing(e) => reading == Reading::Failed(
                    "reading "@ + name + ": "@ + e,
                ),
                Content::Unreadable(e) => reading == Reading::Failed(e),
            }
        }),
{
    assert(seq![name].drop_last() =~= Seq::<Seq<char>>::empty());
    assert(seq![name].last() == name);
    assert(parts_text(bytes, Seq::<Seq<char>>::empty(), table) == Reading::Text(Seq::empty()));
    if let Content::Bytes(xml) = part_content(bytes, name, 64 * 1024 * 1024) {
        let text = match table {
            Some(shared) => sheet_text(part_events(xml, false), shared),
            None => paragraph_text(part_events(xml, false)),
        };
        assert((Seq::<char>::empty() + text).push('\n') =~= text + seq!['\n']);
    }
}

/// What is said of a document: the title and the author that stand in the part for its
/// properties, how many words its text has, and of the text itself the beginning, at most
/// eight thousand characters. Nothing is said that is for images or repositories.
pub proof fn a_document_says_what_its_text_and_properties_say(
    e: Extraction,
    bytes: Seq<u8>,
    pages: Option<int>,
    text: Seq<char>,
)
    requires
        is_outcome(Ok(e), bytes, pages, Reading::Text(text)),
    ensures
        match part_content(bytes, "docProps/core.xml"@, 64 * 1024 * 1024) {
            Content::Bytes(core) => text_view(e.title) == property_in(part_events(core, true), true)
                && text_view(e.author) == property_in(part_events(core, true), false),
            _ => e.title is None && e.author is None,
        },
        pages is None ==> e.page_count is None,
        pages is Some ==> e.page_count is Some && e.page_count->0 == pages->0,
        words_upto(text, text.len()) <= i64::MAX ==> e.word_count is Some && e.word_count->0
            == words_upto(text, text.len()),
        e.body_text is Some && e.body_text->0@.is_prefix_of(text),
        e.body_text->0@.len() == (if text.len() < 8000 {
            text.len()
        } else {
            8000
        }),
        text_view(e.language) == language_of(text),
        e.image_taken_at_unix is None && e.image_camera_model is None && e.git_branch is None
            && e.git_head_commit is None && e.git_head_author is None && e.git_head_at_unix is None,
{
}

/// A text document is read from its main part, and has no pages. An archive that cannot be
/// opened, and one without that part, is an error that says why.
pub proof fn a_text_document_is_read_from_its_main_part(
    r: Result<Extraction, String>,
    bytes: Seq<u8>,
)
    requires
        is_docx_outcome(r, bytes),
    ensures
        match part_names(bytes) {
            Listing::Broken(why) => r is Err && ends(r->Err_0@, why),
            Listing::Parts(_) => match part_content(
                bytes,
                "word/document.xml"@,
                64 * 1024 * 1024,
            ) {
                Content::Bytes(xml) => r is Ok && is_outcome(
                    r,
                    bytes,
                    None,
                    Reading::Text(paragraph_text(part_events(xml, false))),
                ),
                Content::Missing(why) => r is Err && ends(r->Err_0@, why),
                Content::Unreadable(why) => r is Err && r->Err_0@ == why,
            },
        },
{
    if let Listing::Broken(why) = part_names(bytes) {
        a_text_begins_with_what_stands_in_front(why, why, "opening zip: "@);
    } else if let Content::Missing(why) = part_content(
        bytes,
        "word/document.xml"@,
        64 * 1024 * 1024,
    ) {
        a_text_begins_with_what_stands_in_front(
            why,
            why,
            "reading "@ + "word/document.xml"@ + ": "@,
        );
    }
}

/// A workbook has a page for each of its worksheets and a presentation one for each of its
/// slides, which are read in the order of their names; a workbook with its own shared
/// strings. Where there is none it is an error.
pub proof fn sheets_and_slides_are_pages(
    workbook: Result<Extraction, String>,
    presentation: Result<Extraction, String>,
    bytes: Seq<u8>,
    names: Seq<Seq<char>>,
)
    requires
        is_xlsx_outcome(workbook, bytes),
        is_pptx_outcome(presentation, bytes),
        part_names(bytes) == Listing::Parts(names),
        names.len() <= i64::MAX,
    ensures
        ({
            let sheets = ordered_parts(names, "xl/worksheets/sheet"@, ".xml"@);
            let slides = ordered_parts(names, "ppt/slides/slide"@, ".xml"@);
            let shared = match part_content(bytes, "xl/sharedStrings.xml"@, 64 * 1024 * 1024) {
                Content::Bytes(table) => table_of(part_events(table, false)),
                _ => Seq::empty(),
            };
            &&& sheets.len() == 0 ==> workbook is Err
            &&& slides.len() == 0 ==> presentation is Err
            &&& workbook is Ok ==> is_outcome(
                workbook,
                bytes,
                Some(sheets.len() as int),
                parts_text(bytes, sheets, Some(shared)),
            )
            &&& presentation is Ok ==> is_outcome(
                presentation,
                bytes,
                Some(slides.len() as int),
                parts_text(bytes, slides, None),
            )
            &&& sheets.len() > 0 ==> (workbook is Ok <==> parts_text(bytes, sheets, Some(shared))
                is Text)
            &&& slides.len() > 0 ==> (presentation is Ok <==> parts_text(bytes, slides, None)
                is Text)
        }),
{
    lemma_no_more_parts(names, "xl/worksheets/sheet"@, ".xml"@);
    lemma_no_more_parts(names, "ppt/slides/slide"@, ".xml"@);
}

/// There are no more matching names than names.
proof fn lemma_no_more_parts(names: Seq<Seq<char>>, prefix: Seq<char>, suffix: Seq<char>)
    ensures
        ordered_parts(names, prefix, suffix).len() <= names.len(),
{
    let keep = |name: Seq<char>| crate::office::is_part_named(name, prefix, suffix);
    crate::office::lemma_name_order();
    names.filter(keep).lemma_sort_by_ensures(name_order());
    names.lemma_filter_len(keep);
    broadcast use vstd::seq_lib::group_to_multiset_ensures;

    assert(names.filter(keep).to_multiset().len() == ordered_parts(
        names,
        prefix,
        suffix,
    ).to_multiset().len());
}

/// A text of which less than forty characters are left without the white space around it
/// has no language; a longer one has the one that is found in it.
pub proof fn a_short_text_has_no_language(text: Seq<char>)
    ensures
        trimmed(text).len() < 40 ==> language_of(text) is None,
        trimmed(text).len() >= 40 && lowercase(text).len() < 4_294_967_296 ==> language_of(text)
            == detected_language(text),
{
}

} // verus!
