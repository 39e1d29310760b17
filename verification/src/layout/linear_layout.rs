use std::collections::HashMap;

use vstd::prelude::*;

use crate::resources::id::WidgetId;
use crate::layout::{constraint_parts, var_constraint, LayoutBuilder, LayoutVars, Relation, Strength, VarConstraint};
use crate::ui::solver::{constraint_added, LimnSolver, SolverError};

verus! {

broadcast use vstd::std_specs::hash::group_hash_axioms;

/// The axis along which a linear layout places its children.
#[derive(Copy, Clone, Debug, PartialEq, Eq, Structural)]
pub enum Orientation {
    Horizontal,
    Vertical,
}

/// The variable at which a widget begins along the axis.
pub open spec fn spec_beginning(orientation: Orientation, layout: LayoutVars) -> cassowary::Variable {
    match orientation {
        Orientation::Horizontal => layout.left,
        Orientation::Vertical => layout.top,
    }
}

/// The variable at which a widget ends along the axis.
pub open spec fn spec_ending(orientation: Orientation, layout: LayoutVars) -> cassowary::Variable {
    match orientation {
        Orientation::Horizontal => layout.right,
        Orientation::Vertical => layout.bottom,
    }
}

fn beginning(orientation: Orientation, layout: &LayoutVars) -> (v: cassowary::Variable)
    ensures
        v == spec_beginning(orientation, *layout),
{
    match orientation {
        Orientation::Horizontal => layout.left,
        Orientation::Vertical => layout.top,
    }
}

fn ending(orientation: Orientation, layout: &LayoutVars) -> (v: cassowary::Variable)
    ensures
        v == spec_ending(orientation, *layout),
{
    match orientation {
        Orientation::Horizontal => layout.right,
        Orientation::Vertical => layout.bottom,
    }
}

/// What the layout keeps of each child: where it begins and ends along the
/// axis, and its neighbours.
#[derive(Copy, Clone, Debug)]
pub struct WidgetData {
    pub start: cassowary::Variable,
    pub end: cassowary::Variable,
    pub pred: Option<WidgetId>,
    pub succ: Option<WidgetId>,
}

/// The constraints that keep a child inside its parent across the axis.
pub open spec fn cross_axis_bounds(orientation: Orientation, parent: LayoutVars, child: LayoutVars) -> Seq<
    VarConstraint,
> {
    match orientation {
        Orientation::Horizontal => seq![
            var_constraint(child.top, Relation::GreaterOrEqual, parent.top, Strength::Required),
            var_constraint(child.bottom, Relation::LessOrEqual, parent.bottom, Strength::Required),
        ],
        Orientation::Vertical => seq![
            var_constraint(child.left, Relation::GreaterOrEqual, parent.left, Strength::Required),
            var_constraint(child.right, Relation::LessOrEqual, parent.right, Strength::Required),
        ],
    }
}

/// `order` lists the children of `widgets` as a chain: each knows its
/// neighbours, none appears twice, and `last` is the last one.
#[verifier::opaque]
pub open spec fn chain_wf(order: Seq<WidgetId>, widgets: Map<usize, WidgetData>, last: Option<WidgetId>) -> bool {
    &&& forall|i: int, j: int| 0 <= i < j < order.len() ==> order[i] != order[j]
    &&& forall|i: int|
        #![trigger order[i]]
        0 <= i < order.len() ==> {
            &&& widgets.contains_key(order[i].0)
            &&& widgets[order[i].0].pred == (if i == 0 {
                None
            } else {
                Some(order[i - 1])
            })
            &&& widgets[order[i].0].succ == (if i == order.len() - 1 {
                None
            } else {
                Some(order[i + 1])
            })
        }
    &&& forall|w: usize| #[trigger]
        widgets.contains_key(w) ==> exists|i: int| 0 <= i < order.len() && order[i].0 == w
    &&& last == (if order.len() == 0 {
        None
    } else {
        Some(order.last())
    })
}

proof fn lemma_chain_push(
    order: Seq<WidgetId>,
    widgets: Map<usize, WidgetData>,
    last: Option<WidgetId>,
    c: WidgetId,
    new_widgets: Map<usize, WidgetData>,
)
    requires
        chain_wf(order, widgets, last),
        !widgets.contains_key(c.0),
        new_widgets.contains_key(c.0),
        new_widgets[c.0].pred == last,
        new_widgets[c.0].succ is None,
        forall|w: usize| #[trigger] new_widgets.contains_key(w) <==> (widgets.contains_key(w) || w == c.0),
        forall|w: usize| #[trigger]
            widgets.contains_key(w) && Some(WidgetId(w)) != last ==> new_widgets[w] == widgets[w],
        last matches Some(l) ==> new_widgets[l.0].pred == widgets[l.0].pred && new_widgets[l.0].succ == Some(c),
    ensures
        chain_wf(order.push(c), new_widgets, Some(c)),
{
    reveal(chain_wf);
    let new_order = order.push(c);
    let n = order.len();
    assert forall|i: int|
        #![trigger new_order[i]]
        0 <= i < new_order.len() implies {
            &&& new_widgets.contains_key(new_order[i].0)
            &&& new_widgets[new_order[i].0].pred == (if i == 0 {
                None
            } else {
                Some(new_order[i - 1])
            })
            &&& new_widgets[new_order[i].0].succ == (if i == new_order.len() - 1 {
                None
            } else {
                Some(new_order[i + 1])
            })
        } by {
        if i < n {
            assert(order[i] == new_order[i]);
            assert(widgets.contains_key(order[i].0));
            if i < n - 1 {
                assert(order[i + 1] == new_order[i + 1]);
                assert(order[i] != order[n - 1]);
            }
            if i > 0 {
                assert(order[i - 1] == new_order[i - 1]);
            }
        }
    }
    assert forall|w: usize| #[trigger]
        new_widgets.contains_key(w) implies exists|i: int|
            0 <= i < new_order.len() && new_order[i].0 == w by {
        if w == c.0 {
            assert(new_order[n as int].0 == w);
        } else {
            let i = choose|i: int| 0 <= i < order.len() && order[i].0 == w;
            assert(new_order[i].0 == w);
        }
    }
    assert forall|i: int, j: int| 0 <= i < j < new_order.len() implies new_order[i] != new_order[j] by {
        if j == n {
            assert(widgets.contains_key(order[i].0));
        } else {
            assert(order[i] == new_order[i]);
            assert(order[j] == new_order[j]);
        }
    }
}

proof fn lemma_chain_last(order: Seq<WidgetId>, widgets: Map<usize, WidgetData>, last: Option<WidgetId>)
    requires
        chain_wf(order, widgets, last),
    ensures
        last is None <==> order.len() == 0,
        last matches Some(l) ==> l == order.last() && widgets.contains_key(l.0),
{
    reveal(chain_wf);
    if order.len() > 0 {
        assert(widgets.contains_key(order[order.len() - 1].0));
    }
}

/// The position of `c` in `order`.
pub open spec fn position_in(order: Seq<WidgetId>, c: WidgetId) -> int {
    choose|i: int| 0 <= i < order.len() && order[i] == c
}

proof fn lemma_chain_position(
    order: Seq<WidgetId>,
    widgets: Map<usize, WidgetData>,
    last: Option<WidgetId>,
    c: WidgetId,
)
    requires
        chain_wf(order, widgets, last),
        widgets.contains_key(c.0),
    ensures
        0 <= position_in(order, c) < order.len(),
        order[position_in(order, c)] == c,
        forall|j: int| 0 <= j < order.len() && order[j] == c ==> j == position_in(order, c),
        widgets[c.0].pred == (if position_in(order, c) == 0 {
            None
        } else {
            Some(order[position_in(order, c) - 1])
        }),
        widgets[c.0].succ == (if position_in(order, c) == order.len() - 1 {
            None
        } else {
            Some(order[position_in(order, c) + 1])
        }),
        forall|j: int| 0 <= j < order.len() ==> #[trigger] widgets.contains_key(order[j].0),
        forall|a: int, b: int| 0 <= a < b < order.len() ==> order[a] != order[b],
{
    reveal(chain_wf);
    let i = choose|i: int| 0 <= i < order.len() && order[i].0 == c.0;
    assert(order[i] == c);
    assert forall|j: int| 0 <= j < order.len() implies #[trigger] widgets.contains_key(order[j].0) by {
        assert(widgets.contains_key(order[j].0));
    }
}

proof fn lemma_chain_remove_at(
    order: Seq<WidgetId>,
    widgets: Map<usize, WidgetData>,
    i: int,
    new_widgets: Map<usize, WidgetData>,
    k: int,
)
    requires
        0 <= i < order.len(),
        0 <= k < order.len() - 1,
        forall|a: int, b: int| 0 <= a < b < order.len() ==> order[a] != order[b],
        forall|j: int|
            #![trigger order[j]]
            0 <= j < order.len() ==> {
                &&& widgets.contains_key(order[j].0)
                &&& widgets[order[j].0].pred == (if j == 0 {
                    None
                } else {
                    Some(order[j - 1])
                })
                &&& widgets[order[j].0].succ == (if j == order.len() - 1 {
                    None
                } else {
                    Some(order[j + 1])
                })
            },
        forall|w: usize| #[trigger] new_widgets.contains_key(w) <==> (widgets.contains_key(w) && w != order[i].0),
        forall|w: usize| #[trigger]
            new_widgets.contains_key(w) && (i == 0 || w != order[i - 1].0) && (i == order.len() - 1 || w
                != order[i + 1].0) ==> new_widgets[w] == widgets[w],
        i > 0 ==> new_widgets[order[i - 1].0].pred == widgets[order[i - 1].0].pred
            && new_widgets[order[i - 1].0].succ == widgets[order[i].0].succ,
        i < order.len() - 1 ==> new_widgets[order[i + 1].0].succ == widgets[order[i + 1].0].succ
            && new_widgets[order[i + 1].0].pred == widgets[order[i].0].pred,
    ensures
        ({
            let new_order = order.remove(i);
            &&& new_widgets.contains_key(new_order[k].0)
            &&& new_widgets[new_order[k].0].pred == (if k == 0 {
                None
            } else {
                Some(new_order[k - 1])
            })
            &&& new_widgets[new_order[k].0].succ == (if k == new_order.len() - 1 {
                None
            } else {
                Some(new_order[k + 1])
            })
        }),
{
    let new_order = order.remove(i);
    let n = order.len();
    let j = if k < i { k } else { k + 1 };
    assert(new_order[k] == order[j]);
    assert(order[j] != order[i]);
    let w = order[j].0;
    assert(widgets.contains_key(w));
    assert(new_widgets.contains_key(w));
    if k > 0 {
        if k - 1 < i {
            assert(new_order[k - 1] == order[k - 1]);
        } else {
            assert(new_order[k - 1] == order[k]);
        }
    }
    if k < new_order.len() - 1 {
        if k + 1 < i {
            assert(new_order[k + 1] == order[k + 1]);
        } else {
            assert(new_order[k + 1] == order[k + 2]);
        }
    }
    if i > 0 && j == i - 1 {
        assert(widgets[order[i].0].succ == (if i == n - 1 {
            None
        } else {
            Some(order[i + 1])
        }));
    } else if i < n - 1 && j == i + 1 {
        assert(widgets[order[i].0].pred == (if i == 0 {
            None
        } else {
            Some(order[i - 1])
        }));
    } else {
        if i > 0 {
            assert(order[i - 1] != order[j]);
        }
        if i < n - 1 {
            assert(order[i + 1] != order[j]);
        }
        assert(new_widgets[w] == widgets[w]);
    }
}

#[verifier::rlimit(30)]
proof fn lemma_chain_remove(
    order: Seq<WidgetId>,
    widgets: Map<usize, WidgetData>,
    last: Option<WidgetId>,
    i: int,
    new_widgets: Map<usize, WidgetData>,
    new_last: Option<WidgetId>,
)
    requires
        chain_wf(order, widgets, last),
        0 <= i < order.len(),
        forall|w: usize| #[trigger] new_widgets.contains_key(w) <==> (widgets.contains_key(w) && w != order[i].0),
        forall|w: usize| #[trigger]
            new_widgets.contains_key(w) && (i == 0 || w != order[i - 1].0) && (i == order.len() - 1 || w
                != order[i + 1].0) ==> new_widgets[w] == widgets[w],
        i > 0 ==> new_widgets[order[i - 1].0].pred == widgets[order[i - 1].0].pred
            && new_widgets[order[i - 1].0].succ == widgets[order[i].0].succ,
        i < order.len() - 1 ==> new_widgets[order[i + 1].0].succ == widgets[order[i + 1].0].succ
            && new_widgets[order[i + 1].0].pred == widgets[order[i].0].pred,
        new_last == (if last == Some(order[i]) {
            widgets[order[i].0].pred
        } else {
            last
        }),
    ensures
        chain_wf(order.remove(i), new_widgets, new_last),
{
    reveal(chain_wf);
    let new_order = order.remove(i);
    let n = order.len();
    assert forall|k: int|
        #![trigger new_order[k]]
        0 <= k < new_order.len() implies {
            &&& new_widgets.contains_key(new_order[k].0)
            &&& new_widgets[new_order[k].0].pred == (if k == 0 {
                None
            } else {
                Some(new_order[k - 1])
            })
            &&& new_widgets[new_order[k].0].succ == (if k == new_order.len() - 1 {
                None
            } else {
                Some(new_order[k + 1])
            })
        } by {
        lemma_chain_remove_at(order, widgets, i, new_widgets, k);
    }
    assert forall|w: usize| #[trigger]
        new_widgets.contains_key(w) implies exists|k: int|
            0 <= k < new_order.len() && new_order[k].0 == w by {
        let j = choose|j: int| 0 <= j < order.len() && order[j].0 == w;
        assert(j != i);
        if j < i {
            assert(new_order[j].0 == w);
        } else {
            assert(new_order[j - 1].0 == w);
        }
    }
    assert forall|a: int, b: int| 0 <= a < b < new_order.len() implies new_order[a] != new_order[b] by {
        let ja = if a < i { a } else { a + 1 };
        let jb = if b < i { b } else { b + 1 };
        assert(new_order[a] == order[ja]);
        assert(new_order[b] == order[jb]);
    }
    assert(widgets.contains_key(order[n - 1].0));
    assert(widgets.contains_key(order[i].0));
    if n > 1 {
        if i == n - 1 {
            assert(new_order.last() == order[n - 2]);
        } else {
            assert(new_order.last() == order[n - 1]);
        }
    }
}

/// Arranges children one after another along an axis without overlapping: each
/// child begins where the previous one ends, and the last ends before the parent does.
pub struct LinearLayoutHandler {
    orientation: Orientation,
    top: cassowary::Variable,
    bottom: cassowary::Variable,
    widgets: HashMap<usize, WidgetData>,
    last_widget: Option<WidgetId>,
    order: Ghost<Seq<WidgetId>>,
}

impl LinearLayoutHandler {
    pub closed spec fn orientation(&self) -> Orientation {
        self.orientation
    }

    /// The variable at which the parent begins along the axis.
    pub closed spec fn start_var(&self) -> cassowary::Variable {
        self.top
    }

    /// The variable at which the parent ends along the axis.
    pub closed spec fn end_var(&self) -> cassowary::Variable {
        self.bottom
    }

    /// The children, by widget index.
    pub closed spec fn widgets(&self) -> Map<usize, WidgetData> {
        self.widgets@
    }

    /// The children in the order they are laid out.
    pub closed spec fn order(&self) -> Seq<WidgetId> {
        self.order@
    }

    /// The last child, if any.
    pub closed spec fn last_widget(&self) -> Option<WidgetId> {
        self.last_widget
    }

    /// The children form a chain in layout order: each knows its neighbours,
    /// none appears twice, and the last one is remembered.
    pub open spec fn wf(&self) -> bool {
        chain_wf(self.order(), self.widgets(), self.last_widget())
    }

    /// `w` is one of the children.
    pub open spec fn contains(&self, w: WidgetId) -> bool {
        self.widgets().contains_key(w.0)
    }

    /// The variable the next child will begin at: the end of the last child, or
    /// the start of the parent when there are no children.
    pub open spec fn next_start(&self) -> cassowary::Variable {
        if self.order().len() == 0 {
            self.start_var()
        } else {
            self.widgets()[self.order().last().0].end
        }
    }

    pub fn new(orientation: Orientation, parent: &LayoutVars) -> (h: Self)
        ensures
            h.wf(),
            h.orientation() == orientation,
            h.start_var() == spec_beginning(orientation, *parent),
            h.end_var() == spec_ending(orientation, *parent),
            h.order() == Seq::<WidgetId>::empty(),
    {
        let h = LinearLayoutHandler {
            orientation: orientation,
            top: beginning(orientation, parent),
            bottom: ending(orientation, parent),
            widgets: HashMap::new(),
            last_widget: None,
            order: Ghost(Seq::empty()),
        };
        proof {
            reveal(chain_wf);
        }
        h
    }

    /// Appends a child: it is kept inside the parent across the axis, begins where
    /// the previous child ends, and ends no later than the parent.
    pub fn add_child(&mut self, parent: &LayoutVars, child_id: WidgetId, child: &mut LayoutBuilder)
        requires
            old(self).wf(),
            !old(self).contains(child_id),
        ensures
            final(self).wf(),
            final(self).orientation() == old(self).orientation(),
            final(self).start_var() == old(self).start_var(),
            final(self).end_var() == old(self).end_var(),
            final(self).order() == old(self).order().push(child_id),
            forall|w: usize| #[trigger]
                final(self).widgets().contains_key(w) == (old(self).widgets().contains_key(w) || w == child_id.0),
            forall|w: usize| #[trigger]
                old(self).widgets().contains_key(w) ==> final(self).widgets()[w].start == old(
                    self,
                ).widgets()[w].start && final(self).widgets()[w].end == old(self).widgets()[w].end,
            final(self).widgets()[child_id.0].start == spec_beginning(old(self).orientation(), old(child).vars),
            final(self).widgets()[child_id.0].end == spec_ending(old(self).orientation(), old(child).vars),
            final(child).vars == old(child).vars,
            final(child).constraints@ == old(child).constraints@ + cross_axis_bounds(
                old(self).orientation(),
                *parent,
                old(child).vars,
            ) + seq![
                var_constraint(
                    spec_beginning(old(self).orientation(), old(child).vars),
                    Relation::Equal,
                    old(self).next_start(),
                    Strength::Required,
                ),
                var_constraint(
                    spec_ending(old(self).orientation(), old(child).vars),
                    Relation::LessOrEqual,
                    old(self).end_var(),
                    Strength::Required,
                ),
            ],
    {
        match self.orientation {
            Orientation::Horizontal => {
                child.bound_top(parent);
                child.bound_bottom(parent);
            },
            Orientation::Vertical => {
                child.bound_left(parent);
                child.bound_right(parent);
            },
        }
        let child_start = beginning(self.orientation, &child.vars);
        let child_end = ending(self.orientation, &child.vars);
        let ghost old_order = self.order@;
        proof {
            lemma_chain_last(self.order(), self.widgets(), self.last_widget());
        }
        let end = if let Some(last_widget) = self.last_widget {
            let data = *self.widgets.get(&last_widget.0).unwrap();
            let updated = WidgetData { succ: Some(child_id), ..data };
            self.widgets.insert(last_widget.0, updated);
            data.end
        } else {
            self.top
        };
        let constraint = VarConstraint {
            lhs: child_start,
            relation: Relation::Equal,
            rhs: end,
            strength: Strength::Required,
        };
        child.constraints.push(constraint);
        let constraint = VarConstraint {
            lhs: child_end,
            relation: Relation::LessOrEqual,
            rhs: self.bottom,
            strength: Strength::Required,
        };
        child.constraints.push(constraint);
        self.widgets.insert(
            child_id.0,
            WidgetData { start: child_start, end: child_end, pred: self.last_widget, succ: None },
        );
        self.last_widget = Some(child_id);
        self.order = Ghost(old_order.push(child_id));
        proof {
            let o = old(self);
            lemma_chain_push(old_order, o.widgets(), o.last_widget(), child_id, self.widgets());
            assert(child.constraints@ =~= old(child).constraints@ + cross_axis_bounds(
                o.orientation(),
                *parent,
                old(child).vars,
            ) + seq![
                var_constraint(
                    spec_beginning(o.orientation(), old(child).vars),
                    Relation::Equal,
                    o.next_start(),
                    Strength::Required,
                ),
                var_constraint(
                    spec_ending(o.orientation(), old(child).vars),
                    Relation::LessOrEqual,
                    o.end_var(),
                    Strength::Required,
                ),
            ]);
        }
    }

    /// Removes a child. When it had a successor, the successor is tied to where
    /// the removed child began (the end of its predecessor, or the start of the parent)
    /// with a strong constraint added to the parent's layout and handed to the
    /// solver for the parent, widget `parent_id`.
    pub fn remove_child(
        &mut self,
        parent_id: WidgetId,
        child_id: WidgetId,
        parent: &mut LayoutBuilder,
        solver: &mut LimnSolver,
    ) -> (r: Result<(), SolverError>)
        requires
            old(self).wf(),
        ensures
            final(self).wf(),
            final(self).orientation() == old(self).orientation(),
            final(self).start_var() == old(self).start_var(),
            final(self).end_var() == old(self).end_var(),
            final(parent).vars == old(parent).vars,
            !old(self).contains(child_id) ==> {
                &&& final(self).order() == old(self).order()
                &&& final(self).widgets() == old(self).widgets()
                &&& final(parent).constraints@ == old(parent).constraints@
                &&& r is Ok
                &&& *final(solver) == *old(solver)
            },
            old(self).contains(child_id) ==> {
                let order = old(self).order();
                let i = position_in(order, child_id);
                let pred_end = if i == 0 {
                    old(self).start_var()
                } else {
                    old(self).widgets()[order[i - 1].0].end
                };
                &&& final(self).order() == order.remove(i)
                &&& if i == order.len() - 1 {
                    r is Ok && *final(solver) == *old(solver)
                } else {
                    exists|c: cassowary::Constraint| #[trigger]
                        constraint_added(*old(solver), *final(solver), parent_id, c, r) && constraint_parts(c)
                            == var_constraint(
                            pred_end,
                            Relation::Equal,
                            old(self).widgets()[order[i + 1].0].start,
                            Strength::Strong,
                        )
                }
                &&& final(parent).constraints@ == if i == order.len() - 1 {
                    old(parent).constraints@
                } else {
                    old(parent).constraints@.push(
                        var_constraint(
                            pred_end,
                            Relation::Equal,
                            old(self).widgets()[order[i + 1].0].start,
                            Strength::Strong,
                        ),
                    )
                }
            },
            forall|w: usize| #[trigger]
                final(self).widgets().contains_key(w) ==> old(self).widgets().contains_key(w)
                    && final(self).widgets()[w].start == old(self).widgets()[w].start
                    && final(self).widgets()[w].end == old(self).widgets()[w].end,
    {
        let ghost old_order = self.order@;
        let ghost old_widgets = self.widgets@;
        let ghost old_last = self.last_widget;
        let mut result: Result<(), SolverError> = Ok(());
        if let Some(widget_data) = self.widgets.remove(&child_id.0) {
            proof {
                lemma_chain_position(old_order, old_widgets, old_last, child_id);
                lemma_chain_last(old_order, old_widgets, old_last);
            }
            let ghost i = position_in(old_order, child_id);
            if let Some(last_widget_id) = self.last_widget {
                if last_widget_id == child_id {
                    self.last_widget = widget_data.pred;
                }
            }
            let pred_end = if let Some(pred) = widget_data.pred {
                let data = *self.widgets.get(&pred.0).unwrap();
                self.widgets.insert(pred.0, WidgetData { succ: widget_data.succ, ..data });
                data.end
            } else {
                self.top
            };
            if let Some(succ) = widget_data.succ {
                let data = *self.widgets.get(&succ.0).unwrap();
                self.widgets.insert(succ.0, WidgetData { pred: widget_data.pred, ..data });
                let constraint = VarConstraint {
                    lhs: pred_end,
                    relation: Relation::Equal,
                    rhs: data.start,
                    strength: Strength::Strong,
                };
                let built = constraint.to_cassowary();
                let ghost handed = built;
                let added = solver.add_constraint(parent_id, built);
                assert(constraint_added(*old(solver), *solver, parent_id, handed, added));
                parent.constraints.push(constraint);
                result = added;
            }
            self.order = Ghost(old_order.remove(i));
            proof {
                lemma_chain_remove(old_order, old_widgets, old_last, i, self.widgets@, self.last_widget);
            }
        } else {
            assert(self.widgets@ =~= old_widgets);
        }
        result
    }
}

} // verus!

verus! {

/// Removing the child that was just added gives back the children as they were.
pub proof fn law_add_then_remove(order: Seq<WidgetId>, c: WidgetId)
    requires
        !order.contains(c),
    ensures
        position_in(order.push(c), c) == order.len(),
        order.push(c).remove(position_in(order.push(c), c)) == order,
{
    let pushed = order.push(c);
    assert(pushed[order.len() as int] == c);
    let p = position_in(pushed, c);
    if p != order.len() {
        assert(order[p] == c);
    }
    assert(pushed.remove(order.len() as int) =~= order);
}

} // verus!
