//! Building conditions: conjunction and disjunction with the degenerate cases
//! folded away, and the conditions under which control reaches a node.
//!
//! A reaching condition is an `Option<Condition>`: `None` says that the node
//! is reached unconditionally.

use crate::ast::{condition_view, Condition, ConditionView, SimpleCondition};
use vstd::prelude::*;
use vstd::std_specs::vec::axiom_vec_index_decreases;

verus! {

broadcast use axiom_vec_index_decreases;

/// The value of a reaching condition.
pub open spec fn reach_view(r: Option<Condition>) -> Option<ConditionView> {
    match r {
        Some(c) => Some(c@),
        None => None,
    }
}

/// The values of a list of conditions.
pub open spec fn conditions_view(v: Seq<Condition>) -> Seq<ConditionView> {
    Seq::new(v.len(), |i: int| v[i]@)
}

/// The values of a list of reaching conditions.
pub open spec fn reaches_view(v: Seq<Option<Condition>>) -> Seq<Option<ConditionView>> {
    Seq::new(v.len(), |i: int| reach_view(v[i]))
}

/// The conjunction of `operands`: a single operand stands for itself.
pub open spec fn and_of(operands: Seq<ConditionView>) -> ConditionView {
    if operands.len() == 1 {
        operands[0]
    } else {
        ConditionView::And(operands)
    }
}

/// The disjunction of `operands`: a single operand stands for itself.
pub open spec fn or_of(operands: Seq<ConditionView>) -> ConditionView {
    if operands.len() == 1 {
        operands[0]
    } else {
        ConditionView::Or(operands)
    }
}

/// A reaching condition narrowed by the predicate of one more edge. The empty
/// label narrows nothing, and an unconditional reach leaves the label alone.
pub open spec fn and_edge_view(reach: Option<ConditionView>, label: Seq<char>) -> Option<
    ConditionView,
> {
    if label.len() == 0 {
        reach
    } else {
        match reach {
            None => Some(ConditionView::Simple(label)),
            Some(c) => Some(ConditionView::And(seq![c, ConditionView::Simple(label)])),
        }
    }
}

/// Some alternative is unconditional.
pub open spec fn has_unconditional(alts: Seq<Option<ConditionView>>) -> bool {
    exists|i: int| 0 <= i < alts.len() && (#[trigger] alts[i]) is None
}

/// The reaching condition of a node that is reached in any of the ways
/// `alts`: unconditional as soon as one way is, else the disjunction.
pub open spec fn or_reach_view(alts: Seq<Option<ConditionView>>) -> Option<ConditionView> {
    if has_unconditional(alts) {
        None
    } else {
        Some(or_of(Seq::new(alts.len(), |i: int| alts[i]->0)))
    }
}

/// No conjunction and no disjunction in `c` has fewer than two operands.
pub open spec fn operands_ok(c: ConditionView) -> bool
    decreases c,
{
    match c {
        ConditionView::Simple(_) => true,
        ConditionView::And(ops) => ops.len() >= 2 && forall|i: int|
            0 <= i < ops.len() ==> operands_ok(#[trigger] ops[i]),
        ConditionView::Or(ops) => ops.len() >= 2 && forall|i: int|
            0 <= i < ops.len() ==> operands_ok(#[trigger] ops[i]),
    }
}

/// A reaching condition is unconditional or holds no conjunction and no
/// disjunction of fewer than two operands.
pub open spec fn no_short_operands(reach: Option<ConditionView>) -> bool {
    match reach {
        None => true,
        Some(c) => operands_ok(c),
    }
}

impl SimpleCondition {
    /// The predicate that always holds is the one with the empty label.
    pub open spec fn is_trivial_spec(&self) -> bool {
        self@.len() == 0
    }

    /// The predicate that always holds.
    pub fn trivial() -> (r: SimpleCondition)
        ensures
            r@ == Seq::<char>::empty(),
    {
        SimpleCondition(String::new())
    }

    /// Whether this is the predicate that always holds.
    pub fn is_trivial(&self) -> (r: bool)
        ensures
            r == self.is_trivial_spec(),
    {
        self.0.as_str().is_empty()
    }

    /// A copy with the same label.
    pub fn duplicate(&self) -> (r: SimpleCondition)
        ensures
            r@ == self@,
    {
        SimpleCondition(self.0.clone())
    }
}

/// A copy of each condition of `v`, in order.
pub fn duplicate_all(v: &Vec<Condition>) -> (r: Vec<Condition>)
    ensures
        conditions_view(r@) == conditions_view(v@),
    decreases v,
{
    let mut out: Vec<Condition> = Vec::new();
    let mut i: usize = 0;
    while i < v.len()
        invariant
            i <= v.len(),
            out@.len() == i,
            forall|k: int| 0 <= k < i ==> (#[trigger] out@[k])@ == v@[k]@,
        decreases v.len() - i,
    {
        let c = v[i].duplicate();
        out.push(c);
        i += 1;
    }
    assert(conditions_view(out@) =~= conditions_view(v@));
    out
}

/// The operand list of a condition's value is the list of its operands' values.
pub proof fn lemma_operands_view(v: Vec<Condition>)
    ensures
        condition_view(Condition::And(v)) == ConditionView::And(conditions_view(v@)),
        condition_view(Condition::Or(v)) == ConditionView::Or(conditions_view(v@)),
{
    assert(condition_view(Condition::And(v))->And_0 =~= conditions_view(v@));
    assert(condition_view(Condition::Or(v))->Or_0 =~= conditions_view(v@));
}

impl Condition {
    /// A copy with the same value.
    pub fn duplicate(&self) -> (r: Condition)
        ensures
            r@ == self@,
        decreases self,
    {
        match self {
            Condition::Simple(s) => Condition::Simple(s.duplicate()),
            Condition::And(v) => {
                let w = duplicate_all(v);
                proof {
                    lemma_operands_view(*v);
                    lemma_operands_view(w);
                }
                Condition::And(w)
            },
            Condition::Or(v) => {
                let w = duplicate_all(v);
                proof {
                    lemma_operands_view(*v);
                    lemma_operands_view(w);
                }
                Condition::Or(w)
            },
        }
    }

    /// The conjunction of `operands`. With exactly one operand the result is
    /// that operand.
    pub fn and(operands: Vec<Condition>) -> (r: Condition)
        requires
            operands@.len() >= 1,
        ensures
            r@ == and_of(conditions_view(operands@)),
    {
        let mut operands = operands;
        if operands.len() == 1 {
            let only = operands.pop().unwrap();
            only
        } else {
            proof {
                lemma_operands_view(operands);
            }
            Condition::And(operands)
        }
    }

    /// The disjunction of `operands`. With exactly one operand the result is
    /// that operand.
    pub fn or(operands: Vec<Condition>) -> (r: Condition)
        requires
            operands@.len() >= 1,
        ensures
            r@ == or_of(conditions_view(operands@)),
    {
        let mut operands = operands;
        if operands.len() == 1 {
            let only = operands.pop().unwrap();
            only
        } else {
            proof {
                lemma_operands_view(operands);
            }
            Condition::Or(operands)
        }
    }
}

/// A copy of a reaching condition.
pub fn duplicate_reach(reach: &Option<Condition>) -> (r: Option<Condition>)
    ensures
        reach_view(r) == reach_view(*reach),
{
    match reach {
        Some(c) => Some(c.duplicate()),
        None => None,
    }
}

/// The reaching condition at the far end of an edge: the reaching condition
/// of its source together with the predicate of the edge.
pub fn and_edge(reach: &Option<Condition>, label: &SimpleCondition) -> (r: Option<Condition>)
    ensures
        reach_view(r) == and_edge_view(reach_view(*reach), label@),
        no_short_operands(reach_view(*reach)) ==> no_short_operands(reach_view(r)),
{
    if label.is_trivial() {
        duplicate_reach(reach)
    } else {
        match reach {
            None => Some(Condition::Simple(label.duplicate())),
            Some(c) => {
                let mut operands: Vec<Condition> = Vec::new();
                operands.push(c.duplicate());
                operands.push(Condition::Simple(label.duplicate()));
                proof {
                    let ops = seq![c@, ConditionView::Simple(label@)];
                    assert(conditions_view(operands@) =~= ops);
                    if operands_ok(c@) {
                        assert forall|i: int| 0 <= i < ops.len() implies operands_ok(
                            #[trigger] ops[i],
                        ) by {
                            if i == 0 {
                                assert(ops[0] == c@);
                            }
                        }
                        assert(operands_ok(ConditionView::And(ops)));
                    }
                }
                Some(Condition::and(operands))
            },
        }
    }
}

/// The reaching condition of a node that is reached in any of the ways
/// `alts`, of which there is at least one.
pub fn or_reach(alts: Vec<Option<Condition>>) -> (r: Option<Condition>)
    requires
        alts@.len() >= 1,
    ensures
        reach_view(r) == or_reach_view(reaches_view(alts@)),
        (forall|i: int| 0 <= i < alts@.len() ==> no_short_operands(#[trigger] reaches_view(alts@)[i]))
            ==> no_short_operands(reach_view(r)),
{
    let ghost views = reaches_view(alts@);
    let mut operands: Vec<Condition> = Vec::new();
    for alt in it: alts
        invariant
            it.seq() == alts@,
            views == reaches_view(it.seq()),
            operands@.len() == it.index(),
            forall|k: int| 0 <= k < it.index() ==> views[k] == Some((#[trigger] operands@[k])@),
    {
        assert(views[it.index() as int] == reach_view(alt));
        match alt {
            None => {
                assert(has_unconditional(views));
                return None;
            },
            Some(c) => {
                operands.push(c);
            },
        }
    }
    proof {
        assert(views == reaches_view(alts@));
        assert(!has_unconditional(views)) by {
            if has_unconditional(views) {
                let i = choose|i: int| 0 <= i < views.len() && (#[trigger] views[i]) is None;
                assert(views[i] == Some(operands@[i]@));
            }
        }
        assert(conditions_view(operands@) =~= Seq::new(views.len(), |i: int| views[i]->0));
    }
    Some(Condition::or(operands))
}

} // verus!
