//! Applying the values that the solver found to the bounds of widgets.

use std::collections::HashMap;

use vstd::prelude::*;

use crate::resources::id::WidgetId;
use crate::ui::Ui;

verus! {

broadcast use vstd::std_specs::hash::group_hash_axioms;

/// Which bound of a widget a solver variable holds.
#[derive(Copy, Clone, Debug, PartialEq, Eq, Structural)]
pub enum VarType {
    Left,
    Top,
    Right,
    Bottom,
    Width,
    Height,
    Other,
}

/// The bounds of a widget: its origin and its size, in a coordinate type `T`.
#[derive(Copy, Clone, Debug)]
pub struct Bounds<T> {
    pub left: T,
    pub top: T,
    pub width: T,
    pub height: T,
}

/// `b` with the bound that `var` stands for set to `value`. The origin and the
/// size are kept; a right or bottom edge changes neither.
pub open spec fn with_var<T>(b: Bounds<T>, var: VarType, value: T) -> Bounds<T> {
    match var {
        VarType::Left => Bounds { left: value, ..b },
        VarType::Top => Bounds { top: value, ..b },
        VarType::Width => Bounds { width: value, ..b },
        VarType::Height => Bounds { height: value, ..b },
        _ => b,
    }
}

impl<T: Copy> Bounds<T> {
    /// Sets the bound that `var` stands for.
    pub fn update(&mut self, var: VarType, value: T)
        ensures
            *final(self) == with_var(*old(self), var, value),
            final(self).left == (if var == VarType::Left {
                value
            } else {
                old(self).left
            }),
            final(self).top == (if var == VarType::Top {
                value
            } else {
                old(self).top
            }),
            final(self).width == (if var == VarType::Width {
                value
            } else {
                old(self).width
            }),
            final(self).height == (if var == VarType::Height {
                value
            } else {
                old(self).height
            }),
    {
        match var {
            VarType::Left => self.left = value,
            VarType::Top => self.top = value,
            VarType::Width => self.width = value,
            VarType::Height => self.height = value,
            _ => {},
        }
    }
}

/// The bounds after the changes of `changes` are applied in order; a change for
/// a widget that has no bounds is passed over.
pub open spec fn apply_changes<T>(bounds: Map<usize, Bounds<T>>, changes: Seq<(WidgetId, VarType, T)>) -> Map<
    usize,
    Bounds<T>,
>
    decreases changes.len(),
{
    if changes.len() == 0 {
        bounds
    } else {
        let m = apply_changes(bounds, changes.drop_last());
        let (w, var, value) = changes.last();
        if m.contains_key(w.0) {
            m.insert(w.0, with_var(m[w.0], var, value))
        } else {
            m
        }
    }
}

/// The widgets of `changes` that have bounds, one per change, in order.
pub open spec fn changed_widgets<T>(bounds: Map<usize, Bounds<T>>, changes: Seq<(WidgetId, VarType, T)>) -> Seq<
    WidgetId,
>
    decreases changes.len(),
{
    if changes.len() == 0 {
        Seq::empty()
    } else {
        let rest = changed_widgets(bounds, changes.drop_last());
        let w = changes.last().0;
        if bounds.contains_key(w.0) {
            rest.push(w)
        } else {
            rest
        }
    }
}

proof fn lemma_apply_changes_domain<T>(bounds: Map<usize, Bounds<T>>, changes: Seq<(WidgetId, VarType, T)>)
    ensures
        apply_changes(bounds, changes).dom() == bounds.dom(),
    decreases changes.len(),
{
    if changes.len() > 0 {
        lemma_apply_changes_domain(bounds, changes.drop_last());
        let m = apply_changes(bounds, changes.drop_last());
        let w = changes.last().0;
        if m.contains_key(w.0) {
            assert(m.insert(w.0, with_var(m[w.0], changes.last().1, changes.last().2)).dom() =~= m.dom());
        }
    }
}

/// Applies the values the solver found to the bounds of the widgets, in order,
/// and gives the widgets that were changed, one per change, to be told that
/// their layout was updated.
pub fn apply_layout_changes<T: Copy>(
    bounds: &mut HashMap<usize, Bounds<T>>,
    changes: &Vec<(WidgetId, VarType, T)>,
) -> (updated: Vec<WidgetId>)
    ensures
        final(bounds)@ == apply_changes(old(bounds)@, changes@),
        updated@ == changed_widgets(old(bounds)@, changes@),
{
    let ghost b0 = bounds@;
    let mut updated: Vec<WidgetId> = Vec::new();
    let mut i: usize = 0;
    while i < changes.len()
        invariant
            i <= changes@.len(),
            bounds@ == apply_changes(b0, changes@.take(i as int)),
            updated@ == changed_widgets(b0, changes@.take(i as int)),
        decreases changes@.len() - i,
    {
        let (w, var, value) = changes[i];
        proof {
            assert(changes@.take(i + 1).drop_last() =~= changes@.take(i as int));
            lemma_apply_changes_domain(b0, changes@.take(i as int));
        }
        match bounds.remove(&w.0) {
            Some(mut b) => {
                b.update(var, value);
                bounds.insert(w.0, b);
                updated.push(w);
                proof {
                    let m = apply_changes(b0, changes@.take(i as int));
                    assert(bounds@ =~= m.insert(w.0, with_var(m[w.0], var, value)));
                }
            },
            None => {},
        }
        i = i + 1;
    }
    proof {
        assert(changes@.take(changes@.len() as int) =~= changes@);
    }
    updated
}

/// Handles the changes of layout that the solver reports: applies them to the
/// bounds of the widgets and marks the Ui to be drawn again.
pub struct LayoutChangeHandler;

impl LayoutChangeHandler {
    /// Applies `changes`, redraws the Ui, and gives the widgets to be told that
    /// their layout was updated.
    pub fn handle<T: Copy>(
        &mut self,
        changes: &Vec<(WidgetId, VarType, T)>,
        bounds: &mut HashMap<usize, Bounds<T>>,
        ui: &mut Ui,
    ) -> (updated: Vec<WidgetId>)
        ensures
            final(bounds)@ == apply_changes(old(bounds)@, changes@),
            updated@ == changed_widgets(old(bounds)@, changes@),
            final(ui).redraw_pending(),
            final(ui).closing() == old(ui).closing(),
            final(ui).drawing_bounds() == old(ui).drawing_bounds(),
            final(ui).root() == old(ui).root(),
            final(ui).tree() == old(ui).tree(),
    {
        let updated = apply_layout_changes(bounds, changes);
        ui.redraw();
        updated
    }
}

} // verus!

verus! {

/// Applying the solver's changes never adds or removes the bounds of a widget:
/// a change for an unknown widget is passed over.
pub proof fn law_changes_keep_widgets<T>(bounds: Map<usize, Bounds<T>>, changes: Seq<(WidgetId, VarType, T)>)
    ensures
        apply_changes(bounds, changes).dom() == bounds.dom(),
        changed_widgets(bounds, changes).len() <= changes.len(),
    decreases changes.len(),
{
    lemma_apply_changes_domain(bounds, changes);
    if changes.len() > 0 {
        law_changes_keep_widgets(bounds, changes.drop_last());
    }
}

/// A solved value lands in the bound it is for: setting `var` to `value` gives
/// that bound `value` and keeps the three others; a right or bottom edge (or
/// another variable) changes nothing.
pub proof fn law_value_sets_its_bound<T>(b: Bounds<T>, var: VarType, value: T)
    ensures
        with_var(b, var, value).left == (if var == VarType::Left {
            value
        } else {
            b.left
        }),
        with_var(b, var, value).top == (if var == VarType::Top {
            value
        } else {
            b.top
        }),
        with_var(b, var, value).width == (if var == VarType::Width {
            value
        } else {
            b.width
        }),
        with_var(b, var, value).height == (if var == VarType::Height {
            value
        } else {
            b.height
        }),
{
}

/// Applying one change to a widget that has bounds sets the bound it names and
/// keeps the rest, and leaves every other widget's bounds as they were.
pub proof fn law_one_change_applied<T>(bounds: Map<usize, Bounds<T>>, w: WidgetId, var: VarType, value: T)
    requires
        bounds.contains_key(w.0),
    ensures
        ({
            let after = apply_changes(bounds, seq![(w, var, value)]);
            &&& after.contains_key(w.0)
            &&& var == VarType::Left ==> after[w.0].left == value
            &&& var == VarType::Top ==> after[w.0].top == value
            &&& var == VarType::Width ==> after[w.0].width == value
            &&& var == VarType::Height ==> after[w.0].height == value
            &&& var != VarType::Left ==> after[w.0].left == bounds[w.0].left
            &&& var != VarType::Top ==> after[w.0].top == bounds[w.0].top
            &&& var != VarType::Width ==> after[w.0].width == bounds[w.0].width
            &&& var != VarType::Height ==> after[w.0].height == bounds[w.0].height
            &&& forall|k: usize| k != w.0 && #[trigger] bounds.contains_key(k) ==> after[k] == bounds[k]
        }),
{
    let s = seq![(w, var, value)];
    assert(s.drop_last() =~= Seq::<(WidgetId, VarType, T)>::empty());
    assert(s.last() == (w, var, value));
    assert(apply_changes(bounds, s.drop_last()) == bounds);
    assert(apply_changes(bounds, s) == bounds.insert(w.0, with_var(bounds[w.0], var, value)));
}

} // verus!
