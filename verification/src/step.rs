//! Candidate partial paths and the order in which the search takes them up.

use std::cmp::Ordering;
use vstd::prelude::*;

verus! {

/// A candidate partial path: the cumulative cost so far, the node reached, and
/// every node visited from the start up to and including that node.
pub struct Step {
    pub cost: usize,
    pub position: usize,
    pub history: Vec<usize>,
}

/// The mathematical value of a [`Step`].
pub struct StepView {
    pub cost: usize,
    pub position: usize,
    pub history: Seq<usize>,
}

impl StepView {
    /// `self` is taken up no later than `other`: the cheaper step goes first,
    /// and of two equally cheap steps the one at the smaller node.
    pub open spec fn precedes(self, other: StepView) -> bool {
        self.cost < other.cost || (self.cost == other.cost && self.position <= other.position)
    }

    /// `self` and `other` sit at the same node with the same cost.
    pub open spec fn same_key(self, other: StepView) -> bool {
        self.cost == other.cost && self.position == other.position
    }
}

impl View for Step {
    type V = StepView;

    open spec fn view(&self) -> StepView {
        StepView { cost: self.cost, position: self.position, history: self.history@ }
    }
}

impl Step {
    /// Whether `self` is taken up no later than `other`.
    pub fn precedes(&self, other: &Step) -> (b: bool)
        ensures
            b == self@.precedes(other@),
    {
        self.cost < other.cost || (self.cost == other.cost && self.position <= other.position)
    }

    /// Compares two steps by priority: by cost, and by node identifier where
    /// the costs are equal. The greater step is the one that is taken up
    /// first, as the greatest item of a priority queue is: the cheaper step is
    /// the greater one, and of two equally cheap steps the one at the smaller
    /// node.
    pub fn cmp(&self, other: &Step) -> (o: Ordering)
        ensures
            o is Greater <==> self@.precedes(other@) && !other@.precedes(self@),
            o is Less <==> other@.precedes(self@) && !self@.precedes(other@),
            o is Equal <==> self@.same_key(other@),
    {
        if self.cost < other.cost {
            Ordering::Greater
        } else if self.cost > other.cost {
            Ordering::Less
        } else if self.position < other.position {
            Ordering::Greater
        } else if self.position > other.position {
            Ordering::Less
        } else {
            Ordering::Equal
        }
    }

    /// Compares two steps by priority, as [`Step::cmp`] does. Any two steps
    /// can be compared, so there is always an answer.
    pub fn partial_cmp(&self, other: &Step) -> (o: Option<Ordering>)
        ensures
            o matches Some(c) && (c is Greater <==> self@.precedes(other@) && !other@.precedes(
                self@,
            )) && (c is Less <==> other@.precedes(self@) && !self@.precedes(other@)) && (c is Equal
                <==> self@.same_key(other@)),
    {
        Some(self.cmp(other))
    }
}

/// Any two steps are comparable.
pub proof fn lemma_precedes_total(a: StepView, b: StepView)
    ensures
        a.precedes(b) || b.precedes(a),
{
}

/// The order of steps is transitive.
pub proof fn lemma_precedes_transitive(a: StepView, b: StepView, c: StepView)
    requires
        a.precedes(b),
        b.precedes(c),
    ensures
        a.precedes(c),
{
}

} // verus!
