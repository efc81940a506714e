//! The expression tree builder: it takes operands, operators and subtrees
//! in the order the parser meets them and grows a tree whose operators group
//! from the left.

use vstd::prelude::*;

use crate::lexical::Location;
use crate::tree::tree;
use crate::tree::ExpressionOperand;
use crate::tree::ExpressionOperator;
use crate::tree::ExpressionTree;
use crate::tree::ExpressionTreeNode;

verus! {

/// What a builder holds: the root being built, with its location, and its
/// two branches.
pub struct BuilderView {
    pub location: Option<Location>,
    pub value: Option<ExpressionTreeNode>,
    pub left: Option<ExpressionTree>,
    pub right: Option<ExpressionTree>,
}

/// A builder can be finished: it has a root, or at least a left branch.
pub open spec fn finishable(b: BuilderView) -> bool {
    b.value is Some || b.left is Some
}

/// The tree a builder yields: its left branch moved up where it has no
/// root, else the root with its branches.
pub open spec fn spec_finish(b: BuilderView) -> ExpressionTree {
    if b.value is None && b.left is Some {
        b.left.unwrap()
    } else {
        tree(b.location.unwrap(), b.value.unwrap(), b.left, b.right)
    }
}

pub open spec fn with_location_if_unset(b: BuilderView, location: Location) -> BuilderView {
    BuilderView { location: if b.location is None { Some(location) } else { b.location }, ..b }
}

/// A leaf of one operand.
pub open spec fn leaf(location: Location, operand: ExpressionOperand) -> ExpressionTree {
    tree(location, ExpressionTreeNode::Operand(operand), None, None)
}

/// What taking a subtree does: it fills the free branch; with both
/// branches taken, what was built becomes the left branch and the subtree
/// the right one.
pub open spec fn spec_eat(b: BuilderView, value: ExpressionTree) -> BuilderView {
    if b.left is None {
        BuilderView { left: Some(value), ..b }
    } else if b.right is None {
        BuilderView { right: Some(value), ..b }
    } else {
        let built = BuilderView { left: Some(spec_finish(b)), ..b };
        BuilderView { right: Some(value), ..with_location_if_unset(built, value.location) }
    }
}

/// What taking an operand does: without a root it becomes the root;
/// else it fills the free branch as a leaf; with both branches taken, what
/// was built becomes the left branch and the leaf the right one.
pub open spec fn spec_eat_operand(b: BuilderView, operand: ExpressionOperand, location: Location) -> BuilderView {
    if b.value is None {
        BuilderView { value: Some(ExpressionTreeNode::Operand(operand)), ..with_location_if_unset(b, location) }
    } else if b.left is None {
        BuilderView { left: Some(leaf(location, operand)), ..b }
    } else if b.right is None {
        BuilderView { right: Some(leaf(location, operand)), ..b }
    } else {
        let built = BuilderView { left: Some(spec_finish(b)), ..b };
        BuilderView { right: Some(leaf(location, operand)), ..with_location_if_unset(built, location) }
    }
}

/// What taking an operator does: with a root, what was built becomes the
/// left branch of a new root at the operator's location, without a right
/// branch; the operator becomes the root.
pub open spec fn spec_eat_operator(b: BuilderView, operator: ExpressionOperator, location: Location) -> BuilderView {
    let placed = with_location_if_unset(b, location);
    let moved = if placed.value is Some {
        BuilderView { left: Some(spec_finish(placed)), location: Some(location), right: None, ..placed }
    } else {
        placed
    };
    BuilderView { value: Some(ExpressionTreeNode::Operator(operator)), ..moved }
}

pub struct Builder {
    location: Option<Location>,
    value: Option<ExpressionTreeNode>,
    left: Option<ExpressionTree>,
    right: Option<ExpressionTree>,
}

impl View for Builder {
    type V = BuilderView;

    closed spec fn view(&self) -> BuilderView {
        BuilderView { location: self.location, value: self.value, left: self.left, right: self.right }
    }
}

impl Default for Builder {
    fn default() -> (r: Builder)
        ensures
            r@ == empty_builder(),
    {
        Builder { location: None, value: None, left: None, right: None }
    }
}

impl Builder {
    /// A root always has a location.
    #[verifier::type_invariant]
    spec fn located(self) -> bool {
        self.value is Some ==> self.location is Some
    }

    /// Puts the subtree in the free branch; with both branches taken, what
    /// was built becomes the left branch and the subtree the right one.
    pub fn eat(&mut self, value: ExpressionTree)
        ensures
            final(self)@ == spec_eat(old(self)@, value),
    {
        proof {
            use_type_invariant(&*self);
        }
        if self.left.is_none() {
            self.set_left(value);
        } else if self.right.is_none() {
            self.set_right(value);
        } else {
            let built = self.build_copy();
            self.left = Some(built);
            self.set_location_if_unset(value.location);
            self.set_right(value);
        }
    }

    /// Puts the operand at the root, or in the free branch as a leaf; with
    /// both branches taken, what was built becomes the left branch and the
    /// leaf the right one.
    pub fn eat_operand(&mut self, value: ExpressionOperand, location: Location)
        ensures
            final(self)@ == spec_eat_operand(old(self)@, value, location),
    {
        proof {
            use_type_invariant(&*self);
        }
        if self.value.is_none() {
            self.set_location_if_unset(location);
            self.set_value_operand(value);
        } else if self.left.is_none() {
            self.set_left_operand(value, location);
        } else if self.right.is_none() {
            self.set_right_operand(value, location);
        } else {
            let built = self.build_copy();
            self.left = Some(built);
            self.set_location_if_unset(location);
            self.set_right_operand(value, location);
        }
    }

    /// Puts the operator at the root; what was built before, if anything,
    /// becomes its left branch.
    pub fn eat_operator(&mut self, value: ExpressionOperator, location: Location)
        ensures
            final(self)@ == spec_eat_operator(old(self)@, value, location),
    {
        self.set_location_if_unset(location);
        if self.value.is_some() {
            let built = self.build_copy();
            self.left = Some(built);
            self.location = Some(location);
            self.right = None;
        }
        self.set_value_operator(value);
    }

    /// Whether the builder holds nothing.
    pub fn is_empty(&self) -> (r: bool)
        ensures
            r == (self@.value is None && self@.left is None && self@.right is None),
    {
        self.value.is_none() && self.left.is_none() && self.right.is_none()
    }

    /// The built tree: the left branch moved up where there is no root.
    pub fn finish(self) -> (r: ExpressionTree)
        requires
            finishable(self@),
        ensures
            r == spec_finish(self@),
    {
        proof {
            use_type_invariant(&self);
        }
        let Builder { location, value, left, right } = self;
        match value {
            None => left.unwrap(),
            Some(value) => ExpressionTree::new_with_leaves(location.unwrap(), value, left, right),
        }
    }

    /// The tree built so far, taking the branches out; the root and its
    /// location stay.
    fn build_copy(&mut self) -> (r: ExpressionTree)
        requires
            finishable(old(self)@),
        ensures
            r == spec_finish(old(self)@),
            final(self)@ == (BuilderView { left: None, right: None, ..old(self)@ }),
    {
        proof {
            use_type_invariant(&*self);
        }
        let mut left = None;
        core::mem::swap(&mut left, &mut self.left);
        let mut right = None;
        core::mem::swap(&mut right, &mut self.right);
        match &self.value {
            None => left.unwrap(),
            Some(value) => {
                let location = self.location.unwrap();
                ExpressionTree::new_with_leaves(location, value.duplicate(), left, right)
            },
        }
    }

    fn set_location(&mut self, value: Location)
        ensures
            final(self)@ == (BuilderView { location: Some(value), ..old(self)@ }),
    {
        self.location = Some(value);
    }

    fn set_location_if_unset(&mut self, value: Location)
        ensures
            final(self)@ == with_location_if_unset(old(self)@, value),
    {
        if self.location.is_none() {
            self.set_location(value);
        }
    }

    fn set_value_operand(&mut self, value: ExpressionOperand)
        requires
            old(self)@.location is Some,
        ensures
            final(self)@ == (BuilderView { value: Some(ExpressionTreeNode::Operand(value)), ..old(self)@ }),
    {
        self.value = Some(ExpressionTreeNode::operand(value));
    }

    fn set_value_operator(&mut self, value: ExpressionOperator)
        requires
            old(self)@.location is Some,
        ensures
            final(self)@ == (BuilderView { value: Some(ExpressionTreeNode::Operator(value)), ..old(self)@ }),
    {
        self.value = Some(ExpressionTreeNode::operator(value));
    }

    fn set_left(&mut self, value: ExpressionTree)
        ensures
            final(self)@ == (BuilderView { left: Some(value), ..old(self)@ }),
    {
        proof {
            use_type_invariant(&*self);
        }
        self.left = Some(value);
    }

    fn set_left_operand(&mut self, value: ExpressionOperand, location: Location)
        ensures
            final(self)@ == (BuilderView { left: Some(leaf(location, value)), ..old(self)@ }),
    {
        proof {
            use_type_invariant(&*self);
        }
        self.left = Some(ExpressionTree::new(location, ExpressionTreeNode::operand(value)));
    }

    fn set_right(&mut self, value: ExpressionTree)
        ensures
            final(self)@ == (BuilderView { right: Some(value), ..old(self)@ }),
    {
        proof {
            use_type_invariant(&*self);
        }
        self.right = Some(value);
    }

    fn set_right_operand(&mut self, value: ExpressionOperand, location: Location)
        ensures
            final(self)@ == (BuilderView { right: Some(leaf(location, value)), ..old(self)@ }),
    {
        proof {
            use_type_invariant(&*self);
        }
        self.right = Some(ExpressionTree::new(location, ExpressionTreeNode::operand(value)));
    }
}

/// What a fresh builder holds: nothing.
pub open spec fn empty_builder() -> BuilderView {
    BuilderView { location: None, value: None, left: None, right: None }
}

/// A fresh builder that takes one operand yields the leaf of that operand.
pub proof fn law_single_operand(operand: ExpressionOperand, location: Location)
    ensures
        finishable(spec_eat_operand(empty_builder(), operand, location)),
        spec_finish(spec_eat_operand(empty_builder(), operand, location)) == leaf(location, operand),
{
}

/// A fresh builder that takes one subtree yields that subtree.
pub proof fn law_single_subtree(t: ExpressionTree)
    ensures
        finishable(spec_eat(empty_builder(), t)),
        spec_finish(spec_eat(empty_builder(), t)) == t,
{
}

/// Operand, operator, operand: the operator at its location, with the
/// first operand's leaf on the left and the second's on the right.
pub proof fn law_binary_expression(
    a: ExpressionOperand,
    a_location: Location,
    operator: ExpressionOperator,
    operator_location: Location,
    b: ExpressionOperand,
    b_location: Location,
)
    ensures
        ({
            let built = spec_eat_operand(
                spec_eat_operator(spec_eat_operand(empty_builder(), a, a_location), operator, operator_location),
                b,
                b_location,
            );
            &&& finishable(built)
            &&& spec_finish(built) == tree(
                operator_location,
                ExpressionTreeNode::Operator(operator),
                Some(leaf(a_location, a)),
                Some(leaf(b_location, b)),
            )
        }),
{
}

/// Operators group from the left: `a op1 b op2 c` yields `op2` with the tree
/// of `a op1 b` on the left and `c` on the right.
pub proof fn law_left_associative(
    a: ExpressionOperand,
    a_location: Location,
    first: ExpressionOperator,
    first_location: Location,
    b: ExpressionOperand,
    b_location: Location,
    second: ExpressionOperator,
    second_location: Location,
    c: ExpressionOperand,
    c_location: Location,
)
    ensures
        ({
            let built = spec_eat_operand(
                spec_eat_operator(
                    spec_eat_operand(
                        spec_eat_operator(spec_eat_operand(empty_builder(), a, a_location), first, first_location),
                        b,
                        b_location,
                    ),
                    second,
                    second_location,
                ),
                c,
                c_location,
            );
            &&& finishable(built)
            &&& spec_finish(built) == tree(
                second_location,
                ExpressionTreeNode::Operator(second),
                Some(
                    tree(
                        first_location,
                        ExpressionTreeNode::Operator(first),
                        Some(leaf(a_location, a)),
                        Some(leaf(b_location, b)),
                    ),
                ),
                Some(leaf(c_location, c)),
            )
        }),
{
}

/// A builder that has taken a subtree `t` as its first item, then an
/// operator `operator` at `location`, then an operand `x` at `x_location`,
/// yields the operator at `location` with `t` on the left and the leaf of
/// `x` on the right: taking an operator keeps a subtree already taken, as
/// in `(a + b) - c`.
pub proof fn law_operator_after_subtree(
    t: ExpressionTree,
    operator: ExpressionOperator,
    location: Location,
    x: ExpressionOperand,
    x_location: Location,
)
    ensures
        ({
            let built = spec_eat_operand(
                spec_eat_operator(spec_eat(empty_builder(), t), operator, location),
                x,
                x_location,
            );
            &&& finishable(built)
            &&& spec_finish(built) == tree(
                location,
                ExpressionTreeNode::Operator(operator),
                Some(t),
                Some(leaf(x_location, x)),
            )
        }),
{
}

/// Taking an operator while there is no root yet keeps the branches
/// already taken and makes the operator the root; where there is a root,
/// what was built becomes the left branch, so nothing taken is dropped.
pub proof fn law_operator_keeps_what_was_taken(b: BuilderView, operator: ExpressionOperator, location: Location)
    requires
        b.value is Some ==> b.location is Some,
    ensures
        spec_eat_operator(b, operator, location).value == Some(ExpressionTreeNode::Operator(operator)),
        b.value is None ==> spec_eat_operator(b, operator, location).left == b.left
            && spec_eat_operator(b, operator, location).right == b.right,
        b.value is Some ==> spec_eat_operator(b, operator, location).left == Some(
            tree(b.location.unwrap(), b.value.unwrap(), b.left, b.right),
        ) && spec_eat_operator(b, operator, location).right is None && spec_eat_operator(
            b,
            operator,
            location,
        ).location == Some(location),
{
}

} // verus!
