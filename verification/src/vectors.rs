//! Exchanging two values of a vector in place.

use vstd::prelude::*;

verus! {

/// Exchanging two values leaves the collection of values as it was.
pub proof fn lemma_exchange_keeps_multiset<T>(s: Seq<T>, i: int, j: int)
    requires
        0 <= i < j < s.len(),
    ensures
        s.update(i, s[j]).update(j, s[i]).to_multiset() == s.to_multiset(),
{
    broadcast use vstd::seq_lib::group_to_multiset_ensures;

    let s1 = s.update(i, s[j]);
    let s2 = s1.update(j, s[i]);
    vstd::seq_lib::to_multiset_update(s, i, s[j]);
    vstd::seq_lib::to_multiset_update(s1, j, s[i]);
    assert(s.contains(s[i]));
    assert(s.contains(s[j]));
    assert(s1[j] == s[j]);
    assert(s2.to_multiset() =~= s.to_multiset());
}

/// Two lists with the same collection of values hold the same values, and
/// equally many.
pub proof fn lemma_same_values<T>(a: Seq<T>, b: Seq<T>)
    requires
        a.to_multiset() == b.to_multiset(),
    ensures
        forall|x: T| a.contains(x) <==> b.contains(x),
        a.len() == b.len(),
{
    broadcast use vstd::seq_lib::group_to_multiset_ensures;

    assert forall|x: T| a.contains(x) <==> b.contains(x) by {
        assert(a.contains(x) <==> a.to_multiset().count(x) > 0);
        assert(b.contains(x) <==> b.to_multiset().count(x) > 0);
    }
    assert(a.len() == a.to_multiset().len());
    assert(b.len() == b.to_multiset().len());
}

/// Exchanges the values at `i` and `j`.
pub fn exchange<T>(items: &mut Vec<T>, i: usize, j: usize)
    requires
        i < j < old(items).len(),
    ensures
        final(items)@ == old(items)@.update(i as int, old(items)@[j as int]).update(
            j as int,
            old(items)@[i as int],
        ),
        final(items)@.to_multiset() == old(items)@.to_multiset(),
{
    let ghost before = items@;
    let (left, right) = items.as_mut_slice().split_at_mut(j);
    std::mem::swap(&mut left[i], &mut right[0]);
    proof {
        assert(items@ =~= before.update(i as int, before[j as int]).update(
            j as int,
            before[i as int],
        ));
        lemma_exchange_keeps_multiset(before, i as int, j as int);
    }
}

} // verus!
