//! The frontier of a search: a binary min-heap of steps.

use crate::step::{Step, StepView};
use crate::vectors::{exchange, lemma_exchange_keeps_multiset};
use vstd::multiset::Multiset;
use vstd::prelude::*;

verus! {

/// The values of a sequence of steps.
pub open spec fn step_views(items: Seq<Step>) -> Seq<StepView> {
    items.map_values(|s: Step| s@)
}

/// The index of the parent of heap slot `i`.
pub open spec fn parent(i: int) -> int {
    (i - 1) / 2
}

/// Every slot but the root holds a step that its parent precedes.
pub open spec fn heap_ordered(s: Seq<StepView>) -> bool {
    forall|i: int| 0 < i < s.len() ==> s[parent(i)].precedes(#[trigger] s[i])
}

/// The heap order holds everywhere but between slot `k` and its parent, and
/// the parent of `k` precedes the children of `k`.
spec fn ordered_but_above(s: Seq<StepView>, k: int) -> bool {
    &&& forall|i: int| 0 < i < s.len() && i != k ==> s[parent(i)].precedes(#[trigger] s[i])
    &&& forall|i: int|
        0 < i < s.len() && parent(i) == k && k > 0 ==> s[parent(k)].precedes(#[trigger] s[i])
}

/// The heap order holds everywhere but between slot `k` and its children, and
/// the parent of `k` precedes the children of `k`.
spec fn ordered_but_below(s: Seq<StepView>, k: int) -> bool {
    &&& forall|i: int|
        0 < i < s.len() && parent(i) != k ==> s[parent(i)].precedes(#[trigger] s[i])
    &&& forall|i: int|
        0 < i < s.len() && parent(i) == k && k > 0 ==> s[parent(k)].precedes(#[trigger] s[i])
}

/// The root of an ordered heap precedes every step in it.
proof fn lemma_root_is_least(s: Seq<StepView>, i: int)
    requires
        heap_ordered(s),
        0 <= i < s.len(),
    ensures
        s[0].precedes(s[i]),
    decreases i,
{
    if i > 0 {
        lemma_root_is_least(s, parent(i));
        assert(s[parent(i)].precedes(s[i]));
    }
}

/// Exchanges the steps in slots `i` and `j`.
fn swap_slots(items: &mut Vec<Step>, i: usize, j: usize)
    requires
        i < j < old(items).len(),
    ensures
        final(items)@ == old(items)@.update(i as int, old(items)@[j as int]).update(
            j as int,
            old(items)@[i as int],
        ),
        step_views(final(items)@).to_multiset() == step_views(old(items)@).to_multiset(),
        step_views(final(items)@) == step_views(old(items)@).update(
            i as int,
            step_views(old(items)@)[j as int],
        ).update(j as int, step_views(old(items)@)[i as int]),
{
    let ghost before = items@;
    exchange(items, i, j);
    proof {
        let s = step_views(before);
        assert(step_views(items@) =~= s.update(i as int, s[j as int]).update(j as int, s[i as int]));
        lemma_exchange_keeps_multiset(s, i as int, j as int);
    }
}

/// Moves the step in slot `k` towards the root until its parent precedes it.
fn sift_up(items: &mut Vec<Step>, k: usize)
    requires
        k < old(items).len(),
        ordered_but_above(step_views(old(items)@), k as int),
    ensures
        heap_ordered(step_views(final(items)@)),
        step_views(final(items)@).to_multiset() == step_views(old(items)@).to_multiset(),
{
    let mut k: usize = k;
    while k > 0
        invariant
            k < items.len(),
            ordered_but_above(step_views(items@), k as int),
            step_views(items@).to_multiset() == step_views(old(items)@).to_multiset(),
        ensures
            heap_ordered(step_views(items@)),
            step_views(items@).to_multiset() == step_views(old(items)@).to_multiset(),
        decreases k,
    {
        let p: usize = (k - 1) / 2;
        if items[p].precedes(&items[k]) {
            break ;
        }
        let ghost s = step_views(items@);
        swap_slots(items, p, k);
        proof {
            let t = step_views(items@);
            assert forall|i: int| 0 < i < t.len() && i != p implies t[parent(i)].precedes(
                #[trigger] t[i],
            ) by {
                assert(s[parent(i)].precedes(s[i]) || i == k);
            }
            assert forall|i: int| 0 < i < t.len() && parent(i) == p && p > 0 implies t[parent(
                p as int,
            )].precedes(#[trigger] t[i]) by {
                assert(s[parent(p as int)].precedes(s[p as int]));
                assert(i == k || s[p as int].precedes(s[i]));
            }
        }
        k = p;
    }
}

/// Moves the step in slot `k` away from the root until it precedes its
/// children.
fn sift_down(items: &mut Vec<Step>, k: usize)
    requires
        k < old(items).len(),
        ordered_but_below(step_views(old(items)@), k as int),
    ensures
        heap_ordered(step_views(final(items)@)),
        step_views(final(items)@).to_multiset() == step_views(old(items)@).to_multiset(),
{
    let mut k: usize = k;
    let len: usize = items.len();
    loop
        invariant
            len == items.len(),
            k < len,
            ordered_but_below(step_views(items@), k as int),
            step_views(items@).to_multiset() == step_views(old(items)@).to_multiset(),
        ensures
            heap_ordered(step_views(items@)),
            step_views(items@).to_multiset() == step_views(old(items)@).to_multiset(),
        decreases len - k,
    {
        if k >= len / 2 {
            proof {
                let s = step_views(items@);
                assert forall|i: int| 0 < i < s.len() implies s[parent(i)].precedes(
                    #[trigger] s[i],
                ) by {
                    assert(parent(i) != k);
                }
            }
            break ;
        }
        let left: usize = 2 * k + 1;
        let right: usize = left + 1;
        let mut least: usize = left;
        if right < len && !items[left].precedes(&items[right]) {
            least = right;
        }
        if items[k].precedes(&items[least]) {
            proof {
                let s = step_views(items@);
                assert forall|i: int| 0 < i < s.len() implies s[parent(i)].precedes(
                    #[trigger] s[i],
                ) by {
                    if parent(i) == k {
                        assert(i == left || i == right);
                        assert(s[least as int].precedes(s[i]));
                    }
                }
            }
            break ;
        }
        let ghost s = step_views(items@);
        swap_slots(items, k, least);
        proof {
            let t = step_views(items@);
            assert forall|i: int| 0 < i < t.len() && parent(i) != least implies t[parent(
                i,
            )].precedes(#[trigger] t[i]) by {
                if parent(i) == k {
                    assert(i == left || i == right);
                    assert(s[least as int].precedes(s[i]));
                } else if i == k {
                    assert(s[parent(k as int)].precedes(s[least as int]));
                } else {
                    assert(s[parent(i)].precedes(s[i]));
                }
            }
            assert forall|i: int|
                0 < i < t.len() && parent(i) == least && least > 0 implies t[parent(
                least as int,
            )].precedes(#[trigger] t[i]) by {
                assert(s[parent(i)].precedes(s[i]));
            }
        }
        k = least;
    }
}

/// A priority queue of steps that always yields the step that precedes all
/// the others: the cheapest one, and among equally cheap ones the one at the
/// smallest node.
pub struct Frontier {
    items: Vec<Step>,
}

impl View for Frontier {
    type V = Multiset<StepView>;

    closed spec fn view(&self) -> Multiset<StepView> {
        step_views(self.items@).to_multiset()
    }
}

impl Frontier {
    #[verifier::type_invariant]
    spec fn ordered(self) -> bool {
        heap_ordered(step_views(self.items@))
    }

    /// An empty frontier.
    pub fn new() -> (f: Frontier)
        ensures
            f@ == Multiset::<StepView>::empty(),
    {
        let f = Frontier { items: Vec::new() };
        proof {
            assert(step_views(f.items@) =~= Seq::<StepView>::empty());
            assert(Seq::<StepView>::empty().to_multiset() =~= Multiset::<StepView>::empty()) by {
                broadcast use vstd::seq_lib::group_to_multiset_ensures;

            }
        }
        f
    }

    /// The number of steps waiting.
    pub fn len(&self) -> (n: usize)
        ensures
            n == self@.len(),
    {
        proof {
            broadcast use vstd::seq_lib::group_to_multiset_ensures;

        }
        self.items.len()
    }

    /// Whether no step is waiting.
    pub fn is_empty(&self) -> (b: bool)
        ensures
            b == (self@.len() == 0),
    {
        self.len() == 0
    }

    /// Adds a step.
    pub fn push(&mut self, step: Step)
        ensures
            final(self)@ == old(self)@.insert(step@),
    {
        proof {
            use_type_invariant(&*self);
        }
        // The heap is out of order while a step moves through it, so the
        // work is done on the vector alone and the result is put back.
        let mut items: Vec<Step> = Vec::new();
        std::mem::swap(&mut self.items, &mut items);
        heap_push(&mut items, step);
        std::mem::swap(&mut self.items, &mut items);
    }

    /// Takes out the step that precedes all the others, if there is one.
    pub fn pop(&mut self) -> (r: Option<Step>)
        ensures
            match r {
                Some(s) => {
                    &&& old(self)@.contains(s@)
                    &&& forall|t: StepView| old(self)@.contains(t) ==> s@.precedes(t)
                    &&& final(self)@ == old(self)@.remove(s@)
                },
                None => old(self)@.len() == 0 && final(self)@ == old(self)@,
            },
    {
        proof {
            use_type_invariant(&*self);
        }
        let mut items: Vec<Step> = Vec::new();
        std::mem::swap(&mut self.items, &mut items);
        let least = heap_pop(&mut items);
        std::mem::swap(&mut self.items, &mut items);
        least
    }
}

/// Adds `step` to an ordered heap.
fn heap_push(items: &mut Vec<Step>, step: Step)
    requires
        heap_ordered(step_views(old(items)@)),
    ensures
        heap_ordered(step_views(final(items)@)),
        step_views(final(items)@).to_multiset() == step_views(old(items)@).to_multiset().insert(
            step@,
        ),
{
    let ghost s = step_views(items@);
    items.push(step);
    let k: usize = items.len() - 1;
    proof {
        broadcast use vstd::seq_lib::group_to_multiset_ensures;

        let t = step_views(items@);
        assert(t =~= s.push(step@));
        assert forall|i: int| 0 < i < t.len() && i != k implies t[parent(i)].precedes(
            #[trigger] t[i],
        ) by {
            assert(s[parent(i)].precedes(s[i]));
        }
    }
    sift_up(items, k);
}

/// Takes the root out of an ordered heap.
fn heap_pop(items: &mut Vec<Step>) -> (r: Option<Step>)
    requires
        heap_ordered(step_views(old(items)@)),
    ensures
        heap_ordered(step_views(final(items)@)),
        match r {
            Some(s) => {
                let before = step_views(old(items)@).to_multiset();
                &&& before.contains(s@)
                &&& forall|t: StepView| before.contains(t) ==> s@.precedes(t)
                &&& step_views(final(items)@).to_multiset() == before.remove(s@)
            },
            None => {
                &&& step_views(old(items)@).to_multiset().len() == 0
                &&& step_views(final(items)@).to_multiset() == step_views(
                    old(items)@,
                ).to_multiset()
            },
        },
{
    let len: usize = items.len();
    let ghost s = step_views(items@);
    proof {
        broadcast use vstd::seq_lib::group_to_multiset_ensures;

    }
    if len == 0 {
        return None;
    }
    if len > 1 {
        swap_slots(items, 0, len - 1);
    }
    let ghost swapped = step_views(items@);
    let least = items.pop().unwrap();
    proof {
        broadcast use vstd::seq_lib::group_to_multiset_ensures;

        let t = step_views(items@);
        assert(least@ == s[0]);
        assert(t =~= swapped.remove(len - 1));
        assert(swapped[len - 1] == s[0]);
        assert(swapped.to_multiset() == s.to_multiset());
        assert(t.to_multiset() == s.to_multiset().remove(s[0]));
        assert(s.contains(s[0]));
        assert forall|x: StepView| s.to_multiset().contains(x) implies least@.precedes(x) by {
            assert(s.contains(x));
            let i = choose|i: int| 0 <= i < s.len() && s[i] == x;
            lemma_root_is_least(s, i);
        }
        assert forall|i: int| 0 < i < t.len() && parent(i) != 0 implies t[parent(i)].precedes(
            #[trigger] t[i],
        ) by {
            assert(s[parent(i)].precedes(s[i]));
        }
    }
    if items.len() > 0 {
        sift_down(items, 0);
    }
    Some(least)
}

} // verus!
