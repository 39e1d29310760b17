pub mod linear_layout;
pub mod changes;

use vstd::prelude::*;

use crate::layout::changes::VarType;

verus! {

/// A variable of the `cassowary` constraint solver.
#[verifier::external_type_specification]
#[verifier::external_body]
pub struct ExVariable(cassowary::Variable);

/// A constraint of the `cassowary` constraint solver.
#[verifier::external_type_specification]
#[verifier::external_body]
pub struct ExConstraint(cassowary::Constraint);

/// Calls `cassowary::Variable::new`, which hands out a fresh variable; nothing is
/// stated of which one.
#[verifier::external_body]
fn new_variable() -> (v: cassowary::Variable) {
    cassowary::Variable::new()
}

/// Compares two `cassowary` variables with their derived `==`: a variable is
/// the number it was created with, so two are equal exactly when they are the same.
#[verifier::external_body]
pub(crate) fn same_variable(a: &cassowary::Variable, b: &cassowary::Variable) -> (r: bool)
    ensures
        r == (*a == *b),
{
    *a == *b
}

/// How the two sides of a constraint are related.
#[derive(Copy, Clone, Debug, PartialEq, Eq, Structural)]
pub enum Relation {
    Equal,
    LessOrEqual,
    GreaterOrEqual,
}

/// How strongly the solver holds a constraint.
#[derive(Copy, Clone, Debug, PartialEq, Eq, Structural)]
pub enum Strength {
    Required,
    Strong,
}

/// A constraint between two solver variables: `lhs relation rhs` held with `strength`.
#[derive(Copy, Clone, Debug)]
pub struct VarConstraint {
    pub lhs: cassowary::Variable,
    pub relation: Relation,
    pub rhs: cassowary::Variable,
    pub strength: Strength,
}

/// The constraint `lhs relation rhs` with the given strength.
pub open spec fn var_constraint(
    lhs: cassowary::Variable,
    relation: Relation,
    rhs: cassowary::Variable,
    strength: Strength,
) -> VarConstraint {
    VarConstraint { lhs, relation, rhs, strength }
}

/// What a `cassowary` constraint built from two variables states: that the left
/// variable stands in the relation to the right one, held with the strength.
pub uninterp spec fn constraint_parts(c: cassowary::Constraint) -> VarConstraint;

/// Builds `lhs | EQ(REQUIRED) | rhs` with `cassowary`'s operators: the constraint
/// `lhs - rhs == 0` held with that strength.
#[verifier::external_body]
fn cassowary_eq_required(lhs: cassowary::Variable, rhs: cassowary::Variable) -> (c: cassowary::Constraint)
    ensures
        constraint_parts(c) == var_constraint(lhs, Relation::Equal, rhs, Strength::Required),
{
    lhs | cassowary::WeightedRelation::EQ(cassowary::strength::REQUIRED) | rhs
}

/// Builds `lhs | LE(REQUIRED) | rhs` with `cassowary`'s operators: the constraint
/// `lhs - rhs <= 0` held with that strength.
#[verifier::external_body]
fn cassowary_le_required(lhs: cassowary::Variable, rhs: cassowary::Variable) -> (c: cassowary::Constraint)
    ensures
        constraint_parts(c) == var_constraint(lhs, Relation::LessOrEqual, rhs, Strength::Required),
{
    lhs | cassowary::WeightedRelation::LE(cassowary::strength::REQUIRED) | rhs
}

/// Builds `lhs | GE(REQUIRED) | rhs` with `cassowary`'s operators: the constraint
/// `lhs - rhs >= 0` held with that strength.
#[verifier::external_body]
fn cassowary_ge_required(lhs: cassowary::Variable, rhs: cassowary::Variable) -> (c: cassowary::Constraint)
    ensures
        constraint_parts(c) == var_constraint(lhs, Relation::GreaterOrEqual, rhs, Strength::Required),
{
    lhs | cassowary::WeightedRelation::GE(cassowary::strength::REQUIRED) | rhs
}

/// Builds `lhs | EQ(STRONG) | rhs` with `cassowary`'s operators: the constraint
/// `lhs - rhs == 0` held with that strength.
#[verifier::external_body]
fn cassowary_eq_strong(lhs: cassowary::Variable, rhs: cassowary::Variable) -> (c: cassowary::Constraint)
    ensures
        constraint_parts(c) == var_constraint(lhs, Relation::Equal, rhs, Strength::Strong),
{
    lhs | cassowary::WeightedRelation::EQ(cassowary::strength::STRONG) | rhs
}

/// Builds `lhs | LE(STRONG) | rhs` with `cassowary`'s operators: the constraint
/// `lhs - rhs <= 0` held with that strength.
#[verifier::external_body]
fn cassowary_le_strong(lhs: cassowary::Variable, rhs: cassowary::Variable) -> (c: cassowary::Constraint)
    ensures
        constraint_parts(c) == var_constraint(lhs, Relation::LessOrEqual, rhs, Strength::Strong),
{
    lhs | cassowary::WeightedRelation::LE(cassowary::strength::STRONG) | rhs
}

/// Builds `lhs | GE(STRONG) | rhs` with `cassowary`'s operators: the constraint
/// `lhs - rhs >= 0` held with that strength.
#[verifier::external_body]
fn cassowary_ge_strong(lhs: cassowary::Variable, rhs: cassowary::Variable) -> (c: cassowary::Constraint)
    ensures
        constraint_parts(c) == var_constraint(lhs, Relation::GreaterOrEqual, rhs, Strength::Strong),
{
    lhs | cassowary::WeightedRelation::GE(cassowary::strength::STRONG) | rhs
}

impl VarConstraint {
    /// Builds the `cassowary` constraint this describes.
    pub fn to_cassowary(&self) -> (c: cassowary::Constraint)
        ensures
            constraint_parts(c) == *self,
    {
        match (self.relation, self.strength) {
            (Relation::Equal, Strength::Required) => cassowary_eq_required(self.lhs, self.rhs),
            (Relation::LessOrEqual, Strength::Required) => cassowary_le_required(self.lhs, self.rhs),
            (Relation::GreaterOrEqual, Strength::Required) => cassowary_ge_required(self.lhs, self.rhs),
            (Relation::Equal, Strength::Strong) => cassowary_eq_strong(self.lhs, self.rhs),
            (Relation::LessOrEqual, Strength::Strong) => cassowary_le_strong(self.lhs, self.rhs),
            (Relation::GreaterOrEqual, Strength::Strong) => cassowary_ge_strong(self.lhs, self.rhs),
        }
    }
}

/// The solver variables describing the bounds of one widget.
#[derive(Copy, Clone, Debug)]
pub struct LayoutVars {
    pub left: cassowary::Variable,
    pub top: cassowary::Variable,
    pub right: cassowary::Variable,
    pub bottom: cassowary::Variable,
    pub width: cassowary::Variable,
    pub height: cassowary::Variable,
}

/// Which bound of the widget with variables `vars` the variable `v` holds:
/// `Other` when it is none of them.
pub open spec fn spec_var_type(vars: LayoutVars, v: cassowary::Variable) -> VarType {
    if v == vars.left {
        VarType::Left
    } else if v == vars.top {
        VarType::Top
    } else if v == vars.right {
        VarType::Right
    } else if v == vars.bottom {
        VarType::Bottom
    } else if v == vars.width {
        VarType::Width
    } else if v == vars.height {
        VarType::Height
    } else {
        VarType::Other
    }
}

impl LayoutVars {
    /// Which bound of the widget `v` holds: `Other` when it is none of its variables.
    pub fn var_type(&self, v: &cassowary::Variable) -> (t: VarType)
        ensures
            t == spec_var_type(*self, *v),
    {
        if same_variable(v, &self.left) {
            VarType::Left
        } else if same_variable(v, &self.top) {
            VarType::Top
        } else if same_variable(v, &self.right) {
            VarType::Right
        } else if same_variable(v, &self.bottom) {
            VarType::Bottom
        } else if same_variable(v, &self.width) {
            VarType::Width
        } else if same_variable(v, &self.height) {
            VarType::Height
        } else {
            VarType::Other
        }
    }

    /// Fresh variables for a widget's bounds.
    pub fn new() -> Self {
        LayoutVars {
            left: new_variable(),
            top: new_variable(),
            right: new_variable(),
            bottom: new_variable(),
            width: new_variable(),
            height: new_variable(),
        }
    }
}

/// The layout of a widget under construction: its variables and the constraints gathered for it.
pub struct LayoutBuilder {
    pub vars: LayoutVars,
    pub constraints: Vec<VarConstraint>,
}

impl LayoutBuilder {
    pub fn new() -> (b: Self)
        ensures
            b.constraints@ == Seq::<VarConstraint>::empty(),
    {
        LayoutBuilder { vars: LayoutVars::new(), constraints: Vec::new() }
    }

    /// Keeps the top of this widget at or below the top of `parent`.
    pub fn bound_top(&mut self, parent: &LayoutVars)
        ensures
            final(self).vars == old(self).vars,
            final(self).constraints@ == old(self).constraints@.push(
                var_constraint(old(self).vars.top, Relation::GreaterOrEqual, parent.top, Strength::Required),
            ),
    {
        let c = VarConstraint {
            lhs: self.vars.top,
            relation: Relation::GreaterOrEqual,
            rhs: parent.top,
            strength: Strength::Required,
        };
        self.constraints.push(c);
    }

    /// Keeps the bottom of this widget at or above the bottom of `parent`.
    pub fn bound_bottom(&mut self, parent: &LayoutVars)
        ensures
            final(self).vars == old(self).vars,
            final(self).constraints@ == old(self).constraints@.push(
                var_constraint(old(self).vars.bottom, Relation::LessOrEqual, parent.bottom, Strength::Required),
            ),
    {
        let c = VarConstraint {
            lhs: self.vars.bottom,
            relation: Relation::LessOrEqual,
            rhs: parent.bottom,
            strength: Strength::Required,
        };
        self.constraints.push(c);
    }

    /// Keeps the left of this widget at or right of the left of `parent`.
    pub fn bound_left(&mut self, parent: &LayoutVars)
        ensures
            final(self).vars == old(self).vars,
            final(self).constraints@ == old(self).constraints@.push(
                var_constraint(old(self).vars.left, Relation::GreaterOrEqual, parent.left, Strength::Required),
            ),
    {
        let c = VarConstraint {
            lhs: self.vars.left,
            relation: Relation::GreaterOrEqual,
            rhs: parent.left,
            strength: Strength::Required,
        };
        self.constraints.push(c);
    }

    /// Keeps the right of this widget at or left of the right of `parent`.
    pub fn bound_right(&mut self, parent: &LayoutVars)
        ensures
            final(self).vars == old(self).vars,
            final(self).constraints@ == old(self).constraints@.push(
                var_constraint(old(self).vars.right, Relation::LessOrEqual, parent.right, Strength::Required),
            ),
    {
        let c = VarConstraint {
            lhs: self.vars.right,
            relation: Relation::LessOrEqual,
            rhs: parent.right,
            strength: Strength::Required,
        };
        self.constraints.push(c);
    }
}

} // verus!
