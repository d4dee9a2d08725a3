//! The distinct values of a list, in ascending order.

use crate::ordering::{
    alike, at_most, is_alike, is_less, is_total_order, lemma_one_of_three, less,
};
use crate::vectors::{exchange, lemma_same_values};
use vstd::prelude::*;

verus! {

/// Each value of `s` comes strictly before all that follow it.
pub open spec fn strictly_increasing<T: Ord>(s: Seq<T>) -> bool {
    forall|i: int, j: int| 0 <= i < j < s.len() ==> less(s[i], s[j])
}

/// No value of `s` comes after one that follows it.
pub open spec fn ascending<T: Ord>(s: Seq<T>) -> bool {
    forall|i: int, j: int| 0 <= i < j < s.len() ==> at_most(s[i], s[j])
}

/// Some value of `result` compares as equal to `x`.
pub open spec fn has_alike<T: Ord>(result: Seq<T>, x: T) -> bool {
    exists|j: int| 0 <= j < result.len() && alike(x, #[trigger] result[j])
}

/// Every value of `items` compares as equal to some value of `result`.
pub open spec fn covers<T: Ord>(result: Seq<T>, items: Seq<T>) -> bool {
    forall|i: int| 0 <= i < items.len() ==> has_alike(result, #[trigger] items[i])
}

/// Every value of `result` is a value of `items`.
pub open spec fn drawn_from<T>(result: Seq<T>, items: Seq<T>) -> bool {
    forall|j: int| 0 <= j < result.len() ==> items.contains(#[trigger] result[j])
}

/// Sorts `items` into ascending order. Values that compare as equal may end
/// in any order.
pub fn sort_in_place<T: Ord>(items: &mut Vec<T>)
    ensures
        final(items)@.to_multiset() == old(items)@.to_multiset(),
        is_total_order::<T>() ==> ascending(final(items)@),
{
    let n = items.len();
    if n < 2 {
        return ;
    }
    let mut i: usize = 1;
    while i < n
        invariant
            n == items.len(),
            1 <= i <= n,
            items@.to_multiset() == old(items)@.to_multiset(),
            is_total_order::<T>() ==> ascending(items@.take(i as int)),
        decreases n - i,
    {
        let mut j: usize = i;
        proof {
            if is_total_order::<T>() {
                let sorted = items@.take(i as int);
                assert forall|a: int, b: int| 0 <= a < b <= i && a != j && b != j implies at_most(
                    items@[a],
                    items@[b],
                ) by {
                    assert(at_most(sorted[a], sorted[b]));
                }
            }
        }
        loop
            invariant
                n == items.len(),
                j <= i < n,
                items@.to_multiset() == old(items)@.to_multiset(),
                is_total_order::<T>() ==> forall|a: int, b: int|
                    0 <= a < b <= i && a != j && b != j ==> at_most(items@[a], items@[b]),
                is_total_order::<T>() ==> forall|b: int|
                    j < b <= i ==> less(items@[j as int], #[trigger] items@[b]),
            ensures
                n == items.len(),
                items@.to_multiset() == old(items)@.to_multiset(),
                is_total_order::<T>() ==> ascending(items@.take(i + 1)),
            decreases j,
        {
            if j == 0 || !is_less(&items[j], &items[j - 1]) {
                proof {
                    if is_total_order::<T>() {
                        let s = items@;
                        let prefix = s.take(i + 1);
                        assert forall|a: int, b: int| 0 <= a < b < prefix.len() implies at_most(
                            prefix[a],
                            prefix[b],
                        ) by {
                            if b == j {
                                lemma_one_of_three(s[j as int], s[j - 1]);
                                if a < j - 1 {
                                    assert(at_most(s[a], s[j - 1]));
                                    assert(at_most(s[j - 1], s[j as int]));
                                }
                            } else if a == j {
                                assert(less(s[j as int], s[b]));
                            }
                        }
                    }
                }
                break ;
            }
            let ghost s = items@;
            exchange(items, j - 1, j);
            proof {
                if is_total_order::<T>() {
                    let t = items@;
                    assert forall|a: int, b: int|
                        0 <= a < b <= i && a != j - 1 && b != j - 1 implies at_most(
                        t[a],
                        t[b],
                    ) by {
                        if b == j {
                            assert(at_most(s[a], s[j - 1]));
                        } else if a == j {
                            assert(at_most(s[j - 1], s[b]));
                        } else {
                            assert(at_most(s[a], s[b]));
                        }
                    }
                    assert forall|b: int| j - 1 < b <= i implies less(t[j - 1], #[trigger] t[b]) by {
                        if b > j {
                            assert(less(s[j as int], s[b]));
                        }
                    }
                }
            }
            j = j - 1;
        }
        i = i + 1;
    }
    proof {
        assert(items@.take(n as int) =~= items@);
    }
}

/// Removes from an ascending list all but one of the values that compare as
/// equal to each other.
pub fn dedup_sorted<T: Ord>(items: &mut Vec<T>)
    ensures
        drawn_from(final(items)@, old(items)@),
        is_total_order::<T>() && ascending(old(items)@) ==> strictly_increasing(final(items)@)
            && covers(final(items)@, old(items)@),
{
    let n = items.len();
    if n == 0 {
        return ;
    }
    let ghost sorted = items@;
    let ghost good = is_total_order::<T>() && ascending(sorted);
    let mut write: usize = 1;
    proof {
        if good {
            assert(alike(sorted[0], sorted[0]));
            assert(items@.take(1)[0] == sorted[0]);
            assert forall|k: int| 0 <= k < 1 implies has_alike(
                items@.take(1),
                #[trigger] sorted.take(1)[k],
            ) by {
                assert(alike(sorted.take(1)[k], items@.take(1)[0]));
            }
        }
    }
    for read in 1..n
        invariant
            n == items.len(),
            n == sorted.len(),
            good == (is_total_order::<T>() && ascending(sorted)),
            1 <= write <= read,
            read <= n,
            items@.to_multiset() == sorted.to_multiset(),
            forall|k: int| read <= k < n ==> items@[k] == sorted[k],
            good ==> strictly_increasing(items@.take(write as int)),
            good ==> alike(items@[write - 1], sorted[read - 1]),
            good ==> covers(items@.take(write as int), sorted.take(read as int)),
    {
        let ghost s = items@;
        if !is_alike(&items[read], &items[write - 1]) {
            if write != read {
                exchange(items, write, read);
            }
            proof {
                let t = items@;
                if good {
                    let x = sorted[read as int];
                    let last = s[write - 1];
                    assert(at_most(sorted[read - 1], x));
                    lemma_one_of_three(last, sorted[read - 1]);
                    lemma_one_of_three(last, x);
                    lemma_one_of_three(x, last);
                    assert(at_most(last, sorted[read - 1]));
                    assert(at_most(last, x));
                    assert(less(last, x));
                    let kept = t.take(write + 1);
                    assert forall|a: int, b: int| 0 <= a < b < kept.len() implies less(
                        kept[a],
                        kept[b],
                    ) by {
                        if b == write {
                            if a < write - 1 {
                                let before = s.take(write as int);
                                assert(less(before[a], before[write - 1]));
                                assert(at_most(s[write - 1], x));
                            }
                            assert(kept[a] == s[a]);
                        } else {
                            assert(less(s.take(write as int)[a], s.take(write as int)[b]));
                        }
                    }
                    assert(alike(x, x));
                    assert forall|k: int| 0 <= k < read + 1 implies has_alike(
                        kept,
                        #[trigger] sorted.take(read + 1)[k],
                    ) by {
                        if k == read {
                            assert(alike(sorted.take(read + 1)[k], kept[write as int]));
                        } else {
                            assert(has_alike(s.take(write as int), sorted.take(read as int)[k]));
                            let j = choose|j: int|
                                0 <= j < write && alike(
                                    sorted.take(read as int)[k],
                                    #[trigger] s.take(write as int)[j],
                                );
                            assert(kept[j] == s[j]);
                            assert(alike(sorted.take(read + 1)[k], kept[j]));
                        }
                    }
                    assert(covers(kept, sorted.take(read + 1)));
                }
            }
            write = write + 1;
        } else {
            proof {
                if good {
                    let x = sorted[read as int];
                    let kept = s.take(write as int);
                    assert(alike(x, s[write - 1]));
                    assert(alike(s[write - 1], x));
                    assert forall|k: int| 0 <= k < read + 1 implies has_alike(
                        kept,
                        #[trigger] sorted.take(read + 1)[k],
                    ) by {
                        if k == read {
                            assert(alike(sorted.take(read + 1)[k], kept[write - 1]));
                        } else {
                            assert(has_alike(kept, sorted.take(read as int)[k]));
                        }
                    }
                    assert(covers(kept, sorted.take(read + 1)));
                }
            }
        }
    }
    let ghost whole = items@;
    items.truncate(write);
    proof {
        assert(items@ =~= whole.take(write as int));
        assert(sorted.take(n as int) =~= sorted);
        lemma_same_values(whole, sorted);
        assert forall|j: int| 0 <= j < items@.len() implies sorted.contains(
            #[trigger] items@[j],
        ) by {
            assert(whole.contains(whole[j]));
        }
    }
}

/// Returns the distinct values of `items` in ascending order: the list is
/// sorted, and of the values that compare as equal one is kept.
pub fn unique<T: Ord>(items: Vec<T>) -> (result: Vec<T>)
    ensures
        drawn_from(result@, items@),
        is_total_order::<T>() ==> strictly_increasing(result@) && covers(result@, items@),
{
    let mut items = items;
    let ghost given = items@;
    sort_in_place(&mut items);
    let ghost sorted = items@;
    dedup_sorted(&mut items);
    proof {
        lemma_same_values(sorted, given);
        assert forall|j: int| 0 <= j < items@.len() implies given.contains(
            #[trigger] items@[j],
        ) by {
            assert(sorted.contains(items@[j]));
        }
        if is_total_order::<T>() {
            assert forall|i: int| 0 <= i < given.len() implies has_alike(
                items@,
                #[trigger] given[i],
            ) by {
                assert(given.contains(given[i]));
                assert(sorted.contains(given[i]));
                let k = choose|k: int| 0 <= k < sorted.len() && sorted[k] == given[i];
                assert(has_alike(items@, sorted[k]));
            }
        }
    }
    items
}

} // verus!
