use std::collections::HashMap;

use cassowary::strength::REQUIRED;
use cassowary::WeightedRelation::{EQ, GE};

use limn::layout::changes::{apply_layout_changes, Bounds, LayoutChangeHandler, VarType};
use limn::layout::{LayoutBuilder, LayoutVars};
use limn::resources::id::WidgetId;
use limn::ui::input::{InputEvent, InputState, InputTarget, RawInput};
use limn::ui::mouse::Hover;
use limn::ui::solver::{LimnSolver, SolverError, WidgetConstraint};
use limn::ui::Ui;

#[test]
fn solver_records_widget_variables_and_constraints() {
    let mut solver = LimnSolver::new();
    let parent = LayoutVars::new();
    let child = LayoutVars::new();
    let inside = child.left | GE(REQUIRED) | parent.left;
    let same_top = child.top | EQ(REQUIRED) | parent.top;
    assert_eq!(solver.add_widget(WidgetId(1), &parent, Vec::new()), Ok(()));
    let constraints = vec![
        WidgetConstraint::Local(inside.clone()),
        WidgetConstraint::Relative(same_top.clone(), WidgetId(1)),
    ];
    assert_eq!(solver.add_widget(WidgetId(2), &child, constraints), Ok(()));
    assert!(solver.has_constraint(&inside));
    assert!(solver.has_constraint(&same_top));
    assert_eq!(solver.widget_of(&child.left), Some(WidgetId(2)));
    assert_eq!(solver.widget_of(&child.width), Some(WidgetId(2)));
    assert_eq!(solver.widget_of(&child.height), Some(WidgetId(2)));
    assert_eq!(solver.widget_of(&parent.top), Some(WidgetId(1)));
    // right and bottom follow from the others and are not mapped back to widgets
    assert_eq!(solver.widget_of(&child.right), None);
    assert_eq!(solver.widget_of(&child.bottom), None);
    assert!(!solver.has_edit_variable(&child.left));

    assert_eq!(solver.remove_widget(&WidgetId(2)), Ok(()));
    assert!(!solver.has_constraint(&inside));
    assert!(!solver.has_constraint(&same_top));
    // the variables of the removed widget are forgotten, the others stay
    assert_eq!(solver.widget_of(&child.left), None);
    assert_eq!(solver.widget_of(&child.width), None);
    assert_eq!(solver.widget_of(&parent.top), Some(WidgetId(1)));
    // removing a widget with no constraints left does nothing
    assert_eq!(solver.remove_widget(&WidgetId(2)), Ok(()));
}

#[test]
fn solver_removes_a_relative_constraint_with_the_other_widget() {
    let mut solver = LimnSolver::new();
    let parent = LayoutVars::new();
    let child = LayoutVars::new();
    let same_top = child.top | EQ(REQUIRED) | parent.top;
    assert_eq!(solver.add_widget(WidgetId(1), &parent, Vec::new()), Ok(()));
    let constraints = vec![WidgetConstraint::Relative(same_top.clone(), WidgetId(1))];
    assert_eq!(solver.add_widget(WidgetId(2), &child, constraints), Ok(()));
    assert!(solver.has_constraint(&same_top));
    // removing the widget it is relative to takes it out of the solver
    assert_eq!(solver.remove_widget(&WidgetId(1)), Ok(()));
    assert!(!solver.has_constraint(&same_top));
    assert_eq!(solver.widget_of(&child.top), Some(WidgetId(2)));
    assert_eq!(solver.remove_widget(&WidgetId(2)), Ok(()));
}

#[test]
fn solver_add_constraint_records_it_once() {
    let mut solver = LimnSolver::new();
    let a = LayoutVars::new();
    let b = LayoutVars::new();
    let c = a.left | EQ(REQUIRED) | b.left;
    assert_eq!(solver.add_constraint(WidgetId(4), c.clone()), Ok(()));
    assert!(solver.has_constraint(&c));
    assert_eq!(solver.add_constraint(WidgetId(4), c.clone()), Err(SolverError::ConstraintRefused));
    assert_eq!(solver.remove_widget(&WidgetId(4)), Ok(()));
    assert!(!solver.has_constraint(&c));
}

#[test]
fn solver_refuses_a_duplicate_constraint() {
    let mut solver = LimnSolver::new();
    let a = LayoutVars::new();
    let b = LayoutVars::new();
    let c = a.left | EQ(REQUIRED) | b.left;
    assert_eq!(solver.add_widget(WidgetId(1), &a, vec![WidgetConstraint::Local(c.clone())]), Ok(()));
    assert_eq!(
        solver.add_widget(WidgetId(2), &b, vec![WidgetConstraint::Local(c.clone())]),
        Err(SolverError::ConstraintRefused)
    );
}

#[test]
fn solver_refuses_an_unsatisfiable_constraint() {
    let mut solver = LimnSolver::new();
    let a = LayoutVars::new();
    let fixed = a.left | EQ(REQUIRED) | 10.0;
    let other = a.left | EQ(REQUIRED) | 20.0;
    assert_eq!(solver.add_widget(WidgetId(1), &a, vec![WidgetConstraint::Local(fixed)]), Ok(()));
    assert_eq!(
        solver.add_widget(WidgetId(1), &a, vec![WidgetConstraint::Local(other)]),
        Err(SolverError::ConstraintRefused)
    );
}

#[test]
fn layout_changes_update_bounds_of_known_widgets() {
    let mut bounds: HashMap<usize, Bounds<f32>> = HashMap::new();
    bounds.insert(1, Bounds { left: 0.0, top: 0.0, width: 10.0, height: 10.0 });
    let changes = vec![
        (WidgetId(1), VarType::Left, 5.0),
        (WidgetId(9), VarType::Top, 3.0),
        (WidgetId(1), VarType::Right, 100.0),
        (WidgetId(1), VarType::Height, 7.5),
    ];
    let updated = apply_layout_changes(&mut bounds, &changes);
    assert_eq!(updated, vec![WidgetId(1), WidgetId(1), WidgetId(1)]);
    let b = bounds[&1];
    assert_eq!((b.left, b.top, b.width, b.height), (5.0, 0.0, 10.0, 7.5));
    assert!(!bounds.contains_key(&9));
}

#[test]
fn layout_change_handler_redraws() {
    let mut ui = Ui::new(WidgetId(0));
    assert!(ui.draw_if_needed());
    assert!(!ui.draw_if_needed());
    let mut bounds: HashMap<usize, Bounds<i32>> = HashMap::new();
    bounds.insert(0, Bounds { left: 0, top: 0, width: 1, height: 1 });
    let updated = LayoutChangeHandler.handle(&vec![(WidgetId(0), VarType::Width, 40)], &mut bounds, &mut ui);
    assert_eq!(updated, vec![WidgetId(0)]);
    assert_eq!(bounds[&0].width, 40);
    assert!(ui.draw_if_needed());
}

#[test]
fn ui_input_sends_hover_out_then_dispatches() {
    let mut state = InputState::new((0, 0));
    state.last_over = vec![WidgetId(3), WidgetId(4), WidgetId(5)];
    let root = WidgetId(0);
    let events = state.handle_input(&RawInput::MouseMoved('m'), (7, 8), &vec![true, false, true], root);
    assert_eq!(state.mouse, (7, 8));
    assert_eq!(state.last_over, vec![WidgetId(3), WidgetId(5)]);
    assert_eq!(events.len(), 3);
    assert!(matches!(events[0], (InputTarget::Widget(WidgetId(4)), InputEvent::Hover(Hover::Out))));
    assert!(matches!(events[1], (InputTarget::UnderMouse, InputEvent::Hover(Hover::Over))));
    assert!(matches!(events[2], (InputTarget::SubTree(WidgetId(0)), InputEvent::MouseMoved('m'))));

    let events = state.handle_input(&RawInput::MouseWheel('w'), (1, 1), &vec![], root);
    assert_eq!(state.mouse, (7, 8));
    assert!(matches!(events[0], (InputTarget::UnderMouse, InputEvent::WidgetMouseWheel('w'))));
    assert!(matches!(events[1], (InputTarget::SubTree(WidgetId(0)), InputEvent::MouseWheel('w'))));
    assert_eq!(events.len(), 2);

    let events = state.handle_input(&RawInput::MouseInput('b'), (1, 1), &vec![], root);
    assert!(matches!(events[0], (InputTarget::UnderMouse, InputEvent::WidgetMouseButton('b'))));
    assert!(matches!(events[1], (InputTarget::SubTree(WidgetId(0)), InputEvent::MouseButton('b'))));

    let events = state.handle_input(&RawInput::<char>::Other, (1, 1), &vec![], root);
    assert!(events.is_empty());
    assert_eq!(state.last_over, vec![WidgetId(3), WidgetId(5)]);
}

#[test]
fn layout_vars_name_their_bounds() {
    let vars = LayoutVars::new();
    let other = LayoutVars::new();
    assert_eq!(vars.var_type(&vars.left), VarType::Left);
    assert_eq!(vars.var_type(&vars.top), VarType::Top);
    assert_eq!(vars.var_type(&vars.right), VarType::Right);
    assert_eq!(vars.var_type(&vars.bottom), VarType::Bottom);
    assert_eq!(vars.var_type(&vars.width), VarType::Width);
    assert_eq!(vars.var_type(&vars.height), VarType::Height);
    assert_eq!(vars.var_type(&other.left), VarType::Other);
}

#[test]
fn solver_maps_changed_variables_to_widget_bounds() {
    let mut solver = LimnSolver::new();
    let a = LayoutVars::new();
    let b = LayoutVars::new();
    let stray = LayoutVars::new();
    assert_eq!(solver.add_widget(WidgetId(1), &a, Vec::new()), Ok(()));
    assert_eq!(solver.add_widget(WidgetId(2), &b, Vec::new()), Ok(()));
    let mut layouts = HashMap::new();
    layouts.insert(1usize, a);
    let changes = vec![(a.left, 1.5), (stray.left, 2.0), (a.width, 3.0), (b.top, 4.0), (a.right, 5.0)];
    assert_eq!(
        solver.widget_changes(&changes, &layouts),
        vec![(WidgetId(1), VarType::Left, 1.5), (WidgetId(1), VarType::Width, 3.0)]
    );
}

#[test]
fn solver_takes_the_constraints_of_a_layout() {
    let mut solver = LimnSolver::new();
    let parent = LayoutBuilder::new();
    let mut child = LayoutBuilder::new();
    child.bound_left(&parent.vars);
    child.bound_top(&parent.vars);
    assert_eq!(solver.add_widget(WidgetId(2), &child.vars, Vec::new()), Ok(()));
    assert_eq!(solver.update_from_builder(WidgetId(2), &child), Ok(()));
    // the constraints are on the widget's list: removing it takes them out again
    assert_eq!(solver.remove_widget(&WidgetId(2)), Ok(()));
    assert_eq!(solver.update_from_builder(WidgetId(3), &LayoutBuilder::new()), Ok(()));
}

#[test]
fn solver_layout_changed_only_with_known_changes() {
    let mut solver = LimnSolver::new();
    let a = LayoutVars::new();
    let stray = LayoutVars::new();
    assert_eq!(solver.add_widget(WidgetId(1), &a, Vec::new()), Ok(()));
    let mut layouts = HashMap::new();
    layouts.insert(1usize, a);
    assert_eq!(solver.layout_changed(&vec![(stray.top, 1)], &layouts), None);
    assert_eq!(solver.layout_changed(&Vec::<(cassowary::Variable, i32)>::new(), &layouts), None);
    assert_eq!(
        solver.layout_changed(&vec![(a.top, 7), (stray.top, 1)], &layouts),
        Some(vec![(WidgetId(1), VarType::Top, 7)])
    );
}
