//! The structured-program tree and the boolean conditions that guard its parts.

use vstd::prelude::*;

verus! {

/// The discriminant of a multi-way dispatch.
pub type Variable = ();

/// The set of values that selects one case of a multi-way dispatch.
pub type ValueSet = ();

/// The predicate carried by one edge: an opaque label. The empty label stands
/// for the condition that always holds.
#[derive(Debug, PartialEq, Eq)]
pub struct SimpleCondition(pub String);

/// A boolean expression over edge predicates.
#[derive(Debug, PartialEq, Eq)]
pub enum Condition {
    Simple(SimpleCondition),
    And(Vec<Condition>),
    Or(Vec<Condition>),
}

#[derive(Debug, PartialEq, Eq)]
pub enum LoopType {
    PreChecked(Condition),
    PostChecked(Condition),
    Endless,
}

/// A node of the structured program.
#[derive(Debug, PartialEq, Eq)]
pub enum AstNode {
    BasicBlock(String),
    Sequence(Vec<AstNode>),
    Cond(Condition, Box<AstNode>, Option<Box<AstNode>>),
    Loop(LoopType, Box<AstNode>),
    Switch(Variable, Vec<(ValueSet, AstNode)>, Box<AstNode>),
}

/// The mathematical value of a [`Condition`].
pub enum ConditionView {
    Simple(Seq<char>),
    And(Seq<ConditionView>),
    Or(Seq<ConditionView>),
}

/// The mathematical value of a [`LoopType`].
pub enum LoopTypeView {
    PreChecked(ConditionView),
    PostChecked(ConditionView),
    Endless,
}

/// The mathematical value of an [`AstNode`].
pub enum AstView {
    BasicBlock(Seq<char>),
    Sequence(Seq<AstView>),
    Cond(ConditionView, Box<AstView>, Option<Box<AstView>>),
    Loop(LoopTypeView, Box<AstView>),
    Switch(Seq<AstView>, Box<AstView>),
}

impl View for SimpleCondition {
    type V = Seq<char>;

    open spec fn view(&self) -> Seq<char> {
        self.0@
    }
}

/// The value of a condition: labels become character sequences and operand
/// lists become sequences of values.
pub open spec fn condition_view(c: Condition) -> ConditionView
    decreases c,
{
    match c {
        Condition::Simple(s) => ConditionView::Simple(s@),
        Condition::And(v) => ConditionView::And(
            Seq::new(
                v.len() as nat,
                |i: int|
                    if 0 <= i < v.len() {
                        condition_view(v[i])
                    } else {
                        ConditionView::Simple(Seq::empty())
                    },
            ),
        ),
        Condition::Or(v) => ConditionView::Or(
            Seq::new(
                v.len() as nat,
                |i: int|
                    if 0 <= i < v.len() {
                        condition_view(v[i])
                    } else {
                        ConditionView::Simple(Seq::empty())
                    },
            ),
        ),
    }
}

impl View for Condition {
    type V = ConditionView;

    open spec fn view(&self) -> ConditionView {
        condition_view(*self)
    }
}

impl View for LoopType {
    type V = LoopTypeView;

    open spec fn view(&self) -> LoopTypeView {
        match self {
            LoopType::PreChecked(c) => LoopTypeView::PreChecked(c@),
            LoopType::PostChecked(c) => LoopTypeView::PostChecked(c@),
            LoopType::Endless => LoopTypeView::Endless,
        }
    }
}

/// The value of a tree: the same shape, with every label, condition and list
/// replaced by its value. The discriminant and the value sets of a dispatch
/// carry no information and are left out.
pub open spec fn ast_view(n: AstNode) -> AstView
    decreases n,
{
    match n {
        AstNode::BasicBlock(label) => AstView::BasicBlock(label@),
        AstNode::Sequence(v) => AstView::Sequence(
            Seq::new(
                v.len() as nat,
                |i: int|
                    if 0 <= i < v.len() {
                        ast_view(v[i])
                    } else {
                        AstView::BasicBlock(Seq::empty())
                    },
            ),
        ),
        AstNode::Cond(c, then_branch, else_branch) => AstView::Cond(
            c@,
            Box::new(ast_view(*then_branch)),
            match else_branch {
                Some(e) => Some(Box::new(ast_view(*e))),
                None => None,
            },
        ),
        AstNode::Loop(kind, body) => AstView::Loop(kind@, Box::new(ast_view(*body))),
        AstNode::Switch(_, cases, default) => AstView::Switch(
            Seq::new(
                cases.len() as nat,
                |i: int|
                    if 0 <= i < cases.len() {
                        ast_view(cases[i].1)
                    } else {
                        AstView::BasicBlock(Seq::empty())
                    },
            ),
            Box::new(ast_view(*default)),
        ),
    }
}

impl View for AstNode {
    type V = AstView;

    open spec fn view(&self) -> AstView {
        ast_view(*self)
    }
}

} // verus!
