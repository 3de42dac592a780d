//! Distinct values of a column, with how often each occurs.
use vstd::prelude::*;

use crate::ranked::{how_many, is_first_of, keep_first, lemma_how_many, Ranked};
use crate::text::{
    lemma_sorts_before_total, lemma_sorts_before_transitive, same_text, sorts_before,
    text_sorts_before, text_view,
};

verus! {

/// How often `value` occurs among the first `n` rows of a column.
pub open spec fn occurrences(column: Seq<Option<Seq<char>>>, value: Seq<char>, n: nat) -> nat
    decreases n,
{
    if n == 0 {
        0
    } else {
        occurrences(column, value, (n - 1) as nat) + (if column[n - 1] == Some(value) {
            1nat
        } else {
            0nat
        })
    }
}

/// What facets are ordered by: the most common first, and of equally common
/// ones the one that sorts first.
pub open spec fn facet_before(a: Seq<char>, an: int, b: Seq<char>, bn: int) -> bool {
    an > bn || (an == bn && sorts_before(a, b))
}

/// Whether `facets` are the `limit` most common values of a column with how
/// often each occurs, the most common first, or all where there are fewer.
pub open spec fn are_facets(
    facets: Seq<(String, i64)>,
    column: Seq<Option<Seq<char>>>,
    limit: nat,
) -> bool {
    &&& facets.len() <= limit
    &&& forall|i: int|
        0 <= i < facets.len() ==> (#[trigger] facets[i]).1 == occurrences(
            column,
            facets[i].0@,
            column.len(),
        ) && facets[i].1 > 0
    &&& forall|i: int, j: int|
        0 <= i < j < facets.len() ==> facet_before(
            (#[trigger] facets[i]).0@,
            facets[i].1 as int,
            (#[trigger] facets[j]).0@,
            facets[j].1 as int,
        )
    &&& forall|k: int|
        0 <= k < column.len() && (#[trigger] column[k]) is Some ==> (exists|i: int|
            0 <= i < facets.len() && (#[trigger] facets[i]).0@ == column[k]->0) || (facets.len()
            == limit && forall|i: int|
            0 <= i < facets.len() ==> facet_before(
                (#[trigger] facets[i]).0@,
                facets[i].1 as int,
                column[k]->0,
                occurrences(column, column[k]->0, column.len()) as int,
            ))
}

struct Facet {
    value: String,
    count: i64,
}

impl Ranked for Facet {
    closed spec fn before(self, other: Facet) -> bool {
        facet_before(self.value@, self.count as int, other.value@, other.count as int)
    }

    proof fn before_is_strict(a: Facet, b: Facet) {
        lemma_sorts_before_total(a.value@, b.value@);
    }

    proof fn before_is_transitive(a: Facet, b: Facet, c: Facet) {
        lemma_sorts_before_transitive(a.value@, b.value@, c.value@);
    }

    fn is_before(&self, other: &Facet) -> (r: bool) {
        self.count > other.count || (self.count == other.count && text_sorts_before(
            self.value.as_str(),
            other.value.as_str(),
        ))
    }
}

/// Every value of the first `n` rows once, with how often it occurs there.
spec fn counts_first(counts: Seq<Facet>, column: Seq<Option<Seq<char>>>, n: nat) -> bool {
    &&& forall|i: int|
        0 <= i < counts.len() ==> (#[trigger] counts[i]).count == occurrences(
            column,
            counts[i].value@,
            n,
        ) && counts[i].count > 0
    &&& forall|i: int, j: int|
        0 <= i < j < counts.len() ==> (#[trigger] counts[i]).value@ != (
        #[trigger] counts[j]).value@
    &&& forall|k: int|
        0 <= k < n && (#[trigger] column[k]) is Some ==> exists|i: int|
            0 <= i < counts.len() && (#[trigger] counts[i]).value@ == column[k]->0
}

proof fn lemma_absent_is_zero(column: Seq<Option<Seq<char>>>, value: Seq<char>, n: nat)
    requires
        n <= column.len(),
        forall|k: int| 0 <= k < n ==> #[trigger] column[k] != Some(value),
    ensures
        occurrences(column, value, n) == 0,
    decreases n,
{
    if n > 0 {
        lemma_absent_is_zero(column, value, (n - 1) as nat);
    }
}

proof fn lemma_occurrences_bound(column: Seq<Option<Seq<char>>>, value: Seq<char>, n: nat)
    ensures
        occurrences(column, value, n) <= n,
    decreases n,
{
    if n > 0 {
        lemma_occurrences_bound(column, value, (n - 1) as nat);
    }
}

/// Count one more row.
fn count_value(
    counts: &mut Vec<Facet>,
    value: &Option<String>,
    Ghost(column): Ghost<Seq<Option<Seq<char>>>>,
    Ghost(n): Ghost<nat>,
)
    requires
        counts_first(old(counts)@, column, n),
        n < column.len() <= i64::MAX,
        column[n as int] == text_view(*value),
    ensures
        counts_first(final(counts)@, column, n + 1),
{
    let ghost before = counts@;
    match value {
        None => {
            assert forall|i: int| 0 <= i < before.len() implies (#[trigger] before[i]).count
                == occurrences(column, before[i].value@, n + 1) by {
                assert(column[n as int] != Some(before[i].value@));
            }
        },
        Some(v) => {
            let mut i: usize = 0;
            while i < counts.len() && !same_text(counts[i].value.as_str(), v.as_str())
                invariant
                    0 <= i <= counts.len(),
                    counts@ == before,
                    forall|j: int| 0 <= j < i ==> (#[trigger] before[j]).value@ != v@,
                decreases counts.len() - i,
            {
                i = i + 1;
            }
            if i < counts.len() {
                proof {
                    lemma_occurrences_bound(column, v@, n);
                }
                let seen: i64 = counts[i].count;
                counts[i].count = seen + 1;
                proof {
                    let after = counts@;
                    assert(after.len() == before.len());
                    assert(after[i as int].value == before[i as int].value);
                    assert(forall|j: int| 0 <= j < after.len() && j != i ==> after[j] == before[j]);
                    assert forall|j: int| 0 <= j < after.len() implies (#[trigger] after[j]).count
                        == occurrences(column, after[j].value@, n + 1) && after[j].count > 0 by {
                        assert(before[j].count == occurrences(column, before[j].value@, n));
                        if j != i {
                            if j < i {
                                assert(before[j].value@ != before[i as int].value@);
                            } else {
                                assert(before[i as int].value@ != before[j].value@);
                            }
                        }
                    }
                    assert forall|j: int, k: int| 0 <= j < k < after.len() implies (
                    #[trigger] after[j]).value@ != (#[trigger] after[k]).value@ by {
                        assert(before[j].value@ != before[k].value@);
                    }
                    assert forall|k: int|
                        0 <= k < n + 1 && (#[trigger] column[k]) is Some implies exists|j: int|
                        0 <= j < after.len() && (#[trigger] after[j]).value@ == column[k]->0 by {
                        if k < n {
                            let j = choose|j: int|
                                0 <= j < before.len() && (#[trigger] before[j]).value@
                                    == column[k]->0;
                            assert(after[j].value@ == column[k]->0);
                        } else {
                            assert(after[i as int].value@ == column[k]->0);
                        }
                    }
                }
            } else {
                counts.push(Facet { value: v.clone(), count: 1 });
                proof {
                    let after = counts@;
                    assert forall|k: int| 0 <= k < n implies #[trigger] column[k] != Some(v@) by {
                        if column[k] == Some(v@) {
                            let j = choose|j: int|
                                0 <= j < before.len() && (#[trigger] before[j]).value@
                                    == column[k]->0;
                        }
                    }
                    lemma_absent_is_zero(column, v@, n);
                    assert forall|j: int| 0 <= j < after.len() implies (#[trigger] after[j]).count
                        == occurrences(column, after[j].value@, n + 1) && after[j].count > 0 by {
                        if j < before.len() {
                            assert(after[j] == before[j]);
                            assert(before[j].count == occurrences(column, before[j].value@, n));
                        }
                    }
                    assert forall|k: int|
                        0 <= k < n + 1 && (#[trigger] column[k]) is Some implies exists|j: int|
                        0 <= j < after.len() && (#[trigger] after[j]).value@ == column[k]->0 by {
                        if k < n {
                            let j = choose|j: int|
                                0 <= j < before.len() && (#[trigger] before[j]).value@
                                    == column[k]->0;
                            assert(after[j].value@ == column[k]->0);
                        } else {
                            assert(after[before.len() as int].value@ == column[k]->0);
                        }
                    }
                }
            }
        },
    }
}

/// The most common values of a column.
pub(crate) fn facets_of(column: &Vec<Option<String>>, limit: u32) -> (r: Vec<(String, i64)>)
    requires
        column.len() <= i64::MAX,
    ensures
        are_facets(
            r@,
            column@.map_values(|v: Option<String>| text_view(v)),
            limit as nat,
        ),
{
    let ghost col = column@.map_values(|v: Option<String>| text_view(v));
    let mut counts: Vec<Facet> = Vec::new();
    let mut k: usize = 0;
    while k < column.len()
        invariant
            0 <= k <= column.len(),
            column.len() <= i64::MAX,
            col == column@.map_values(|v: Option<String>| text_view(v)),
            counts_first(counts@, col, k as nat),
        decreases column.len() - k,
    {
        count_value(&mut counts, &column[k], Ghost(col), Ghost(k as nat));
        k = k + 1;
    }
    let ghost all = counts@;
    let most = limit as usize;
    let mut best: Vec<Facet> = Vec::new();
    let ghost mut taken: Seq<Facet> = Seq::empty();
    while counts.len() > 0
        invariant
            counts_first(all, col, col.len()),
            counts@ =~= all.take(counts.len() as int),
            counts.len() <= all.len(),
            taken.len() == all.len() - counts.len(),
            forall|j: int| 0 <= j < taken.len() ==> #[trigger] taken[j] == all[all.len() - 1 - j],
            is_first_of(best@, taken, most as nat),
        decreases counts.len(),
    {
        let ghost n = counts.len() as int;
        match counts.pop() {
            Some(facet) => {
                proof {
                    assert(facet == all[n - 1]);
                    assert forall|j: int| 0 <= j < taken.len() implies (#[trigger] taken[j]).before(
                        facet,
                    ) || facet.before(taken[j]) by {
                        let other = all[all.len() - 1 - j];
                        assert(facet.value@ != other.value@);
                        lemma_sorts_before_total(facet.value@, other.value@);
                    }
                }
                let ghost earlier = taken;
                proof {
                    taken = taken.push(facet);
                }
                keep_first(&mut best, facet, most, Ghost(earlier));
            },
            None => {
                assert(false);
            },
        }
    }
    proof {
        assert forall|i: int| 0 <= i < best@.len() implies all.contains(#[trigger] best@[i]) by {
            assert(taken.contains(best@[i]));
            let j = choose|j: int| 0 <= j < taken.len() && taken[j] == best@[i];
            assert(all[all.len() - 1 - j] == best@[i]);
        }
    }
    let ghost kept = best@;
    let mut reversed: Vec<(String, i64)> = Vec::new();
    let ghost total = kept.len();
    while best.len() > 0
        invariant
            best@ =~= kept.take(best.len() as int),
            best.len() <= kept.len(),
            total == kept.len(),
            reversed.len() == kept.len() - best.len(),
            forall|j: int|
                0 <= j < reversed.len() ==> (#[trigger] reversed@[j]).0 == kept[kept.len() - 1
                    - j].value && reversed@[j].1 == kept[kept.len() - 1 - j].count,
        decreases best.len(),
    {
        match best.pop() {
            Some(facet) => {
                reversed.push((facet.value, facet.count));
            },
            None => {
                assert(false);
            },
        }
    }
    let ghost back = reversed@;
    let mut out: Vec<(String, i64)> = Vec::new();
    while reversed.len() > 0
        invariant
            reversed@ =~= back.take(reversed.len() as int),
            reversed.len() <= back.len(),
            back.len() == kept.len(),
            forall|j: int|
                0 <= j < back.len() ==> (#[trigger] back[j]).0 == kept[kept.len() - 1 - j].value
                    && back[j].1 == kept[kept.len() - 1 - j].count,
            out.len() == back.len() - reversed.len(),
            forall|j: int|
                0 <= j < out.len() ==> (#[trigger] out@[j]).0 == kept[j].value && out@[j].1
                    == kept[j].count,
        decreases reversed.len(),
    {
        match reversed.pop() {
            Some(facet) => {
                out.push(facet);
            },
            None => {
                assert(false);
            },
        }
    }
    proof {
        let facets = out@;
        assert forall|i: int| 0 <= i < facets.len() implies (#[trigger] facets[i]).1 == occurrences(
            col,
            facets[i].0@,
            col.len(),
        ) && facets[i].1 > 0 by {
            assert(all.contains(kept[i]));
            let j = choose|j: int| 0 <= j < all.len() && all[j] == kept[i];
            assert(all[j].count == occurrences(col, all[j].value@, col.len()));
        }
        assert forall|i: int, j: int| 0 <= i < j < facets.len() implies facet_before(
            (#[trigger] facets[i]).0@,
            facets[i].1 as int,
            (#[trigger] facets[j]).0@,
            facets[j].1 as int,
        ) by {
            assert(kept[i].before(kept[j]));
        }
        assert forall|k: int| 0 <= k < col.len() && (#[trigger] col[k]) is Some implies (exists|
            i: int,
        |
            0 <= i < facets.len() && (#[trigger] facets[i]).0@ == col[k]->0) || (facets.len()
            == limit && forall|i: int|
            0 <= i < facets.len() ==> facet_before(
                (#[trigger] facets[i]).0@,
                facets[i].1 as int,
                col[k]->0,
                occurrences(col, col[k]->0, col.len()) as int,
            )) by {
            let a = choose|a: int| 0 <= a < all.len() && (#[trigger] all[a]).value@ == col[k]->0;
            let t = all.len() - 1 - a;
            assert(taken[t] == all[a]);
            if kept.contains(taken[t]) {
                let i = choose|i: int| 0 <= i < kept.len() && kept[i] == taken[t];
                assert(facets[i].0@ == col[k]->0);
            } else {
                assert forall|i: int| 0 <= i < facets.len() implies facet_before(
                    (#[trigger] facets[i]).0@,
                    facets[i].1 as int,
                    col[k]->0,
                    occurrences(col, col[k]->0, col.len()) as int,
                ) by {
                    assert(kept[i].before(taken[t]));
                }
            }
        }
    }
    out
}

// Laws.

/// A facet's count is the number of rows that hold its value. No value is given
/// twice, a more common one comes first, and a value that is left out is no more
/// common than any that is given, of which there are then as many as were asked for.
pub proof fn facets_are_the_most_common_values(
    facets: Seq<(String, i64)>,
    column: Seq<Option<Seq<char>>>,
    limit: nat,
)
    requires
        are_facets(facets, column, limit),
    ensures
        facets.len() <= limit,
        forall|i: int|
            0 <= i < facets.len() ==> (#[trigger] facets[i]).1 > 0 && facets[i].1 == how_many(
                column.len(),
                |k: int| column[k] == Some(facets[i].0@),
            ),
        forall|i: int, j: int|
            0 <= i < j < facets.len() ==> (#[trigger] facets[i]).1 >= (#[trigger] facets[j]).1
                && facets[i].0@ != facets[j].0@ && (facets[i].1 == facets[j].1 ==> sorts_before(
                facets[i].0@,
                facets[j].0@,
            )),
        forall|k: int|
            0 <= k < column.len() && (#[trigger] column[k]) is Some && (forall|i: int|
                0 <= i < facets.len() ==> (#[trigger] facets[i]).0@ != column[k]->0)
                ==> facets.len() == limit && forall|i: int|
                0 <= i < facets.len() ==> (#[trigger] facets[i]).1 >= how_many(
                    column.len(),
                    |m: int| column[m] == column[k],
                ),
{
    assert forall|i: int| 0 <= i < facets.len() implies (#[trigger] facets[i]).1 > 0
        && facets[i].1 == how_many(column.len(), |k: int| column[k] == Some(facets[i].0@)) by {
        lemma_occurrences(column, facets[i].0@, column.len());
    }
    assert forall|i: int, j: int| 0 <= i < j < facets.len() implies (#[trigger] facets[i]).1 >= (
    #[trigger] facets[j]).1 && facets[i].0@ != facets[j].0@ && (facets[i].1 == facets[j].1
        ==> sorts_before(facets[i].0@, facets[j].0@)) by {
        lemma_sorts_before_total(facets[i].0@, facets[j].0@);
    }
    assert forall|k: int|
        0 <= k < column.len() && (#[trigger] column[k]) is Some && (forall|i: int|
            0 <= i < facets.len() ==> (#[trigger] facets[i]).0@ != column[k]->0) implies facets.len()
        == limit && forall|i: int|
        0 <= i < facets.len() ==> (#[trigger] facets[i]).1 >= how_many(
            column.len(),
            |m: int| column[m] == column[k],
        ) by {
        lemma_occurrences(column, column[k]->0, column.len());
        let same = |m: int| column[m] == Some(column[k]->0);
        assert(same =~= (|m: int| column[m] == column[k]));
    }
}

proof fn lemma_occurrences(column: Seq<Option<Seq<char>>>, value: Seq<char>, n: nat)
    ensures
        occurrences(column, value, n) == how_many(n, |k: int| column[k] == Some(value)),
    decreases n,
{
    lemma_how_many(n, |k: int| column[k] == Some(value));
    if n > 0 {
        lemma_occurrences(column, value, (n - 1) as nat);
    }
}

} // verus!
