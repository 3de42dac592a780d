//! The first few of many, in order.
use vstd::prelude::*;

verus! {

/// Values with a strict order.
pub trait Ranked: Sized {
    /// Whether `self` comes before `other`.
    spec fn before(self, other: Self) -> bool;

    proof fn before_is_strict(a: Self, b: Self)
        ensures
            a.before(b) ==> !b.before(a),
    ;

    proof fn before_is_transitive(a: Self, b: Self, c: Self)
        ensures
            a.before(b) && b.before(c) ==> a.before(c),
    ;

    fn is_before(&self, other: &Self) -> (r: bool)
        ensures
            r == self.before(*other),
    ;
}

/// Every value comes before the ones behind it.
pub open spec fn in_order<T: Ranked>(s: Seq<T>) -> bool {
    forall|i: int, j: int| 0 <= i < j < s.len() ==> (#[trigger] s[i]).before(#[trigger] s[j])
}

/// Whether `out` is the first `limit` of the values in `all`, in order, or all
/// of them where there are fewer.
pub open spec fn is_first_of<T: Ranked>(out: Seq<T>, all: Seq<T>, limit: nat) -> bool {
    &&& in_order(out)
    &&& out.len() <= limit
    &&& forall|i: int| 0 <= i < out.len() ==> all.contains(#[trigger] out[i])
    &&& forall|k: int|
        0 <= k < all.len() ==> out.contains(#[trigger] all[k]) || (out.len() == limit && forall|
            i: int,
        |
            0 <= i < out.len() ==> (#[trigger] out[i]).before(all[k]))
}

/// Put one more value among the first `limit`.
pub(crate) fn keep_first<T: Ranked>(
    out: &mut Vec<T>,
    item: T,
    limit: usize,
    Ghost(all): Ghost<Seq<T>>,
)
    requires
        is_first_of(old(out)@, all, limit as nat),
        forall|k: int|
            0 <= k < all.len() ==> (#[trigger] all[k]).before(item) || item.before(all[k]),
    ensures
        is_first_of(final(out)@, all.push(item), limit as nat),
{
    let ghost before = out@;
    let mut at: usize = out.len();
    while at > 0 && item.is_before(&out[at - 1])
        invariant
            0 <= at <= out.len(),
            out@ == before,
            forall|j: int| at <= j < out.len() ==> item.before(#[trigger] out@[j]),
        decreases at,
    {
        at = at - 1;
    }
    proof {
        assert forall|i: int| 0 <= i < at implies (#[trigger] before[i]).before(item) by {
            let k = choose|k: int| 0 <= k < all.len() && all[k] == before[at - 1];
            assert(all.contains(before[at - 1]));
            assert(before[at - 1].before(item));
            if i < at - 1 {
                assert(before[i].before(before[at - 1]));
                T::before_is_transitive(before[i], before[at - 1], item);
            }
        }
    }
    if at >= limit {
        proof {
            let grown = all.push(item);
            assert forall|i: int| 0 <= i < before.len() implies grown.contains(
                #[trigger] before[i],
            ) by {
                let k = choose|k: int| 0 <= k < all.len() && all[k] == before[i];
                assert(all.contains(before[i]));
                assert(grown[k] == before[i]);
            }
            assert forall|k: int| 0 <= k < grown.len() implies before.contains(#[trigger] grown[k])
                || (before.len() == limit && forall|i: int|
                0 <= i < before.len() ==> (#[trigger] before[i]).before(grown[k])) by {
                if k < all.len() {
                    assert(grown[k] == all[k]);
                }
            }
        }
        return;
    }
    out.insert(at, item);
    let ghost full = out@;
    proof {
        assert forall|i: int, j: int| 0 <= i < j < full.len() implies (#[trigger] full[i]).before(
            #[trigger] full[j],
        ) by {
            if j < at {
                assert(before[i].before(before[j]));
            } else if j == at {
                assert(before[i].before(item));
            } else if i == at {
                assert(item.before(before[j - 1]));
            } else if i < at {
                assert(before[i].before(before[j - 1]));
            } else {
                assert(before[i - 1].before(before[j - 1]));
            }
        }
    }
    if out.len() > limit {
        let dropped = out.pop();
        assert(dropped is Some);
    }
    proof {
        let kept = out@;
        let grown = all.push(item);
        assert(kept =~= full.take(kept.len() as int));
        assert forall|i: int| 0 <= i < kept.len() implies grown.contains(#[trigger] kept[i]) by {
            assert(kept[i] == full[i]);
            if i == at {
                assert(grown[all.len() as int] == item);
            } else {
                let b = if i < at {
                    before[i]
                } else {
                    before[i - 1]
                };
                assert(all.contains(b));
                let k = choose|k: int| 0 <= k < all.len() && all[k] == b;
                assert(grown[k] == b);
            }
        }
        assert forall|k: int| 0 <= k < grown.len() implies kept.contains(#[trigger] grown[k]) || (
        kept.len() == limit && forall|i: int|
            0 <= i < kept.len() ==> (#[trigger] kept[i]).before(grown[k])) by {
            if k == all.len() {
                assert(kept[at as int] == item);
            } else {
                assert(grown[k] == all[k]);
                if before.contains(all[k]) {
                    let b = choose|b: int| 0 <= b < before.len() && before[b] == all[k];
                    let f = if b < at {
                        b
                    } else {
                        b + 1
                    };
                    assert(full[f] == all[k]);
                    if f < kept.len() {
                        assert(kept[f] == all[k]);
                    } else {
                        assert forall|i: int| 0 <= i < kept.len() implies (
                        #[trigger] kept[i]).before(grown[k]) by {
                            assert(full[i].before(full[f]));
                        }
                    }
                } else {
                    // it was behind everything kept so far, and still is
                    assert(before.len() == limit);
                    assert forall|i: int| 0 <= i < kept.len() implies (#[trigger] kept[i]).before(
                        grown[k],
                    ) by {
                        if i < at {
                            assert(before[i].before(all[k]));
                        } else if i > at {
                            assert(before[i - 1].before(all[k]));
                        } else {
                            assert(item.before(before[at as int]));
                            assert(before[at as int].before(all[k]));
                            T::before_is_transitive(item, before[at as int], all[k]);
                        }
                    }
                }
            }
        }
    }
}

/// There is only one sequence of the first `limit` values.
pub proof fn first_of_is_unique<T: Ranked>(a: Seq<T>, b: Seq<T>, all: Seq<T>, limit: nat)
    requires
        is_first_of(a, all, limit),
        is_first_of(b, all, limit),
    ensures
        a == b,
    decreases a.len(),
{
    lemma_first_prefix(a, b, all, limit, a.len());
    lemma_first_prefix(b, a, all, limit, b.len());
    assert(a =~= b);
}

/// The first `n` values of the one are the first `n` values of the other.
proof fn lemma_first_prefix<T: Ranked>(a: Seq<T>, b: Seq<T>, all: Seq<T>, limit: nat, n: nat)
    requires
        is_first_of(a, all, limit),
        is_first_of(b, all, limit),
        n <= a.len(),
    ensures
        n <= b.len(),
        forall|i: int| 0 <= i < n ==> #[trigger] a[i] == b[i],
    decreases n,
{
    if n > 0 {
        let m = (n - 1) as int;
        lemma_first_prefix(a, b, all, limit, m as nat);
        assert(all.contains(a[m]));
        let ka = choose|k: int| 0 <= k < all.len() && all[k] == a[m];
        // a[m] stands in b, at m or later
        if b.contains(a[m]) {
            let p = choose|p: int| 0 <= p < b.len() && b[p] == a[m];
            if p < m {
                assert(a[p] == b[p]);
                assert(a[p].before(a[m]));
                T::before_is_strict(a[p], a[m]);
                assert(false);
            }
            if p > m {
                // b[m] comes before a[m], so it stands in a, before m
                assert(b[m].before(b[p]));
                assert(all.contains(b[m]));
                let kb = choose|k: int| 0 <= k < all.len() && all[k] == b[m];
                if a.contains(b[m]) {
                    let q = choose|q: int| 0 <= q < a.len() && a[q] == b[m];
                    if q < m {
                        assert(a[q] == b[q]);
                        assert(b[q].before(b[m]));
                        T::before_is_strict(b[q], b[m]);
                        assert(false);
                    } else if q == m {
                        T::before_is_strict(b[m], b[p]);
                        assert(false);
                    } else {
                        assert(a[m].before(a[q]));
                        T::before_is_strict(a[m], b[m]);
                        assert(false);
                    }
                } else {
                    assert(a[m].before(all[kb]));
                    T::before_is_strict(a[m], b[m]);
                    assert(false);
                }
            }
        } else {
            assert(b.len() == limit);
            assert(b.len() > m);
            assert(b[m].before(all[ka]));
            assert(all.contains(b[m]));
            let kb = choose|k: int| 0 <= k < all.len() && all[k] == b[m];
            if a.contains(b[m]) {
                let q = choose|q: int| 0 <= q < a.len() && a[q] == b[m];
                if q < m {
                    assert(a[q] == b[q]);
                    assert(b[q].before(b[m]));
                    T::before_is_strict(b[q], b[m]);
                    assert(false);
                } else if q == m {
                    assert(b.contains(a[m]));
                    assert(false);
                } else {
                    assert(a[m].before(a[q]));
                    T::before_is_strict(a[m], b[m]);
                    assert(false);
                }
            } else {
                assert(a[m].before(all[kb]));
                T::before_is_strict(a[m], b[m]);
                assert(false);
            }
        }
    }
}

// Counting.

/// How many of the numbers below `n` are such.
pub open spec fn how_many(n: nat, such: spec_fn(int) -> bool) -> nat {
    Seq::new(n, |k: int| k).filter(such).len()
}

/// One more number to look at adds one where it is such, and nothing where not.
pub(crate) proof fn lemma_how_many(n: nat, such: spec_fn(int) -> bool)
    ensures
        how_many(0, such) == 0,
        n > 0 ==> how_many(n, such) == how_many((n - 1) as nat, such) + (if such(n - 1) {
            1nat
        } else {
            0nat
        }),
{
    reveal(Seq::filter);
    let none = Seq::new(0, |k: int| k);
    assert(none.len() == 0);
    if n > 0 {
        let all = Seq::new(n, |k: int| k);
        assert(all.drop_last() =~= Seq::new((n - 1) as nat, |k: int| k));
        assert(all.last() == n - 1);
    }
}

/// What says the same of every number below `n` counts as many of them.
pub(crate) proof fn lemma_how_many_alike(
    n: nat,
    such: spec_fn(int) -> bool,
    other: spec_fn(int) -> bool,
)
    requires
        forall|k: int| 0 <= k < n ==> #[trigger] such(k) == other(k),
    ensures
        how_many(n, such) == how_many(n, other),
    decreases n,
{
    lemma_how_many(n, such);
    lemma_how_many(n, other);
    if n > 0 {
        lemma_how_many_alike((n - 1) as nat, such, other);
        assert(such(n - 1) == other(n - 1));
    }
}

} // verus!
