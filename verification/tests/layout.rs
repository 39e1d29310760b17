use limn::layout::linear_layout::{LinearLayoutHandler, Orientation};
use limn::layout::{LayoutBuilder, Relation, Strength, VarConstraint};
use limn::resources::id::WidgetId;
use limn::ui::solver::LimnSolver;

fn is(c: &VarConstraint, lhs: cassowary::Variable, relation: Relation, rhs: cassowary::Variable, strength: Strength) -> bool {
    c.lhs == lhs && c.relation == relation && c.rhs == rhs && c.strength == strength
}

#[test]
fn vertical_children_stack_without_overlap() {
    let parent = LayoutBuilder::new();
    let mut h = LinearLayoutHandler::new(Orientation::Vertical, &parent.vars);
    let mut a = LayoutBuilder::new();
    let mut b = LayoutBuilder::new();
    h.add_child(&parent.vars, WidgetId(1), &mut a);
    h.add_child(&parent.vars, WidgetId(2), &mut b);
    assert_eq!(a.constraints.len(), 4);
    assert!(is(&a.constraints[0], a.vars.left, Relation::GreaterOrEqual, parent.vars.left, Strength::Required));
    assert!(is(&a.constraints[1], a.vars.right, Relation::LessOrEqual, parent.vars.right, Strength::Required));
    assert!(is(&a.constraints[2], a.vars.top, Relation::Equal, parent.vars.top, Strength::Required));
    assert!(is(&a.constraints[3], a.vars.bottom, Relation::LessOrEqual, parent.vars.bottom, Strength::Required));
    assert!(is(&b.constraints[2], b.vars.top, Relation::Equal, a.vars.bottom, Strength::Required));
    assert!(is(&b.constraints[3], b.vars.bottom, Relation::LessOrEqual, parent.vars.bottom, Strength::Required));
}

#[test]
fn horizontal_children_are_bounded_vertically() {
    let parent = LayoutBuilder::new();
    let mut h = LinearLayoutHandler::new(Orientation::Horizontal, &parent.vars);
    let mut a = LayoutBuilder::new();
    h.add_child(&parent.vars, WidgetId(1), &mut a);
    assert!(is(&a.constraints[0], a.vars.top, Relation::GreaterOrEqual, parent.vars.top, Strength::Required));
    assert!(is(&a.constraints[1], a.vars.bottom, Relation::LessOrEqual, parent.vars.bottom, Strength::Required));
    assert!(is(&a.constraints[2], a.vars.left, Relation::Equal, parent.vars.left, Strength::Required));
    assert!(is(&a.constraints[3], a.vars.right, Relation::LessOrEqual, parent.vars.right, Strength::Required));
}

#[test]
fn removing_a_middle_child_ties_its_neighbours() {
    let mut parent = LayoutBuilder::new();
    let pv = parent.vars;
    let mut h = LinearLayoutHandler::new(Orientation::Vertical, &pv);
    let mut a = LayoutBuilder::new();
    let mut b = LayoutBuilder::new();
    let mut c = LayoutBuilder::new();
    h.add_child(&pv, WidgetId(1), &mut a);
    h.add_child(&pv, WidgetId(2), &mut b);
    h.add_child(&pv, WidgetId(3), &mut c);
    let mut solver = LimnSolver::new();
    assert_eq!(h.remove_child(WidgetId(0), WidgetId(2), &mut parent, &mut solver), Ok(()));
    assert_eq!(parent.constraints.len(), 1);
    assert!(is(&parent.constraints[0], a.vars.bottom, Relation::Equal, c.vars.top, Strength::Strong));
    // removing the first child ties the next one to the parent's top
    assert_eq!(h.remove_child(WidgetId(0), WidgetId(1), &mut parent, &mut solver), Ok(()));
    assert!(is(&parent.constraints[1], pv.top, Relation::Equal, c.vars.top, Strength::Strong));
    // removing the last child adds nothing; a new child starts at the parent's top
    assert_eq!(h.remove_child(WidgetId(0), WidgetId(3), &mut parent, &mut solver), Ok(()));
    assert_eq!(parent.constraints.len(), 2);
    // both ties were handed to the solver for the parent; removing it takes them out
    assert_eq!(solver.remove_widget(&WidgetId(0)), Ok(()));
    let mut d = LayoutBuilder::new();
    h.add_child(&pv, WidgetId(4), &mut d);
    assert!(is(&d.constraints[2], d.vars.top, Relation::Equal, pv.top, Strength::Required));
}

#[test]
fn removing_an_unknown_child_changes_nothing() {
    let mut parent = LayoutBuilder::new();
    let pv = parent.vars;
    let mut h = LinearLayoutHandler::new(Orientation::Horizontal, &pv);
    let mut solver = LimnSolver::new();
    assert_eq!(h.remove_child(WidgetId(0), WidgetId(9), &mut parent, &mut solver), Ok(()));
    assert!(parent.constraints.is_empty());
}

#[test]
fn constraints_convert_to_cassowary() {
    let a = LayoutBuilder::new();
    let b = LayoutBuilder::new();
    let c = VarConstraint { lhs: a.vars.left, relation: Relation::LessOrEqual, rhs: b.vars.left, strength: Strength::Strong };
    let converted = c.to_cassowary();
    assert_eq!(converted.op(), cassowary::RelationalOperator::LessOrEqual);
    assert_eq!(converted.strength(), cassowary::strength::STRONG);
    assert_eq!(converted.expr().terms.len(), 2);
}
