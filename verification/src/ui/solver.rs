//! Keeps the `cassowary` solver in step with the widgets of the Ui: which
//! constraints belong to which widget, and which widget each variable bounds.

use std::collections::HashMap;

use vstd::prelude::*;

use crate::layout::changes::VarType;
use crate::layout::{constraint_parts, same_variable, spec_var_type, LayoutBuilder, LayoutVars, VarConstraint};
use crate::resources::id::WidgetId;

verus! {

broadcast use vstd::std_specs::hash::group_hash_axioms;

/// The constraint solver of `cassowary`.
#[verifier::external_type_specification]
#[verifier::external_body]
pub struct ExSolver(cassowary::Solver);

/// `cassowary::Constraint` derives `Clone` over a shared pointer: the clone is the same constraint.
pub assume_specification[ <cassowary::Constraint as Clone>::clone ](c: &cassowary::Constraint) -> (r:
    cassowary::Constraint)
    ensures
        r == *c,
;

/// The constraints a `cassowary` solver holds: the keys of its constraint table,
/// which `has_constraint` reads.
pub uninterp spec fn solver_held(s: cassowary::Solver) -> Set<cassowary::Constraint>;

/// The edit variables of a `cassowary` solver: the keys of its edit table, which
/// `has_edit_variable` reads.
pub uninterp spec fn solver_edit_vars(s: cassowary::Solver) -> Set<cassowary::Variable>;

/// Whether `cassowary`, asked to add the constraint `c` that solver `s` does not
/// hold, refuses it: a required constraint it cannot satisfy together with the
/// ones it holds, or an internal error of its simplex.
pub uninterp spec fn add_refused(s: cassowary::Solver, c: cassowary::Constraint) -> bool;

/// Whether `cassowary`, asked to remove the constraint `c` that solver `s` holds,
/// reports an internal error of its simplex after taking it out of its table.
pub uninterp spec fn remove_fails(s: cassowary::Solver, c: cassowary::Constraint) -> bool;

/// Calls `cassowary::Solver::new`: the solver holds no constraint and no edit variable.
#[verifier::external_body]
fn solver_new() -> (s: cassowary::Solver)
    ensures
        solver_held(s) =~= Set::empty(),
        solver_edit_vars(s) =~= Set::empty(),
{
    cassowary::Solver::new()
}

/// Calls `cassowary::Solver::add_constraint`; `true` when it returns `Ok`. It
/// refuses a constraint it holds already (and then changes nothing), and one that
/// `add_refused` names; otherwise it takes the constraint into its table. An
/// internal error after the constraint entered the table leaves it there. Edit
/// variables are untouched.
#[verifier::external_body]
fn solver_add_constraint(s: &mut cassowary::Solver, c: cassowary::Constraint) -> (added: bool)
    ensures
        added == (!solver_held(*old(s)).contains(c) && !add_refused(*old(s), c)),
        added ==> solver_held(*final(s)) == solver_held(*old(s)).insert(c),
        !added ==> solver_held(*final(s)) == solver_held(*old(s)) || solver_held(*final(s)) == solver_held(
            *old(s),
        ).insert(c),
        solver_edit_vars(*final(s)) == solver_edit_vars(*old(s)),
{
    s.add_constraint(c).is_ok()
}

/// Calls `cassowary::Solver::has_constraint`: whether the solver's table holds `c`.
#[verifier::external_body]
fn solver_has_constraint(s: &cassowary::Solver, c: &cassowary::Constraint) -> (r: bool)
    ensures
        r == solver_held(*s).contains(*c),
{
    s.has_constraint(c)
}

/// Calls `cassowary::Solver::remove_constraint`; `true` when it returns `Ok`. The
/// constraint leaves the table first in every case; the call fails when it was
/// not there, or when `remove_fails` names it. Edit variables are untouched.
#[verifier::external_body]
fn solver_remove_constraint(s: &mut cassowary::Solver, c: &cassowary::Constraint) -> (removed: bool)
    ensures
        solver_held(*final(s)) == solver_held(*old(s)).remove(*c),
        removed == (solver_held(*old(s)).contains(*c) && !remove_fails(*old(s), *c)),
        solver_edit_vars(*final(s)) == solver_edit_vars(*old(s)),
{
    s.remove_constraint(c).is_ok()
}

/// Calls `cassowary::Solver::has_edit_variable`: whether `v` is an edit variable of the solver.
#[verifier::external_body]
fn solver_has_edit_variable(s: &cassowary::Solver, v: &cassowary::Variable) -> (r: bool)
    ensures
        r == solver_edit_vars(*s).contains(*v),
{
    s.has_edit_variable(v)
}

/// A constraint on the layout of a widget, on its own variables or relative to another widget.
#[derive(Clone, Debug)]
pub enum WidgetConstraint {
    Local(cassowary::Constraint),
    Relative(cassowary::Constraint, WidgetId),
}

/// Why the solver could not take a change of layout.
#[derive(Copy, Clone, Debug, PartialEq, Eq, Structural)]
pub enum SolverError {
    /// `cassowary` refused a constraint: a duplicate, or a required constraint it cannot satisfy.
    ConstraintRefused,
    /// `cassowary` failed to remove a constraint that it held.
    RemoveFailed,
}

/// The constraint a widget constraint holds.
pub open spec fn constraint_of(x: WidgetConstraint) -> cassowary::Constraint {
    match x {
        WidgetConstraint::Local(c) => c,
        WidgetConstraint::Relative(c, _) => c,
    }
}

/// The constraints handed to the solver when `constraints` are added, in order.
pub open spec fn handed_constraints(constraints: Seq<WidgetConstraint>) -> Seq<cassowary::Constraint> {
    constraints.map_values(|x: WidgetConstraint| constraint_of(x))
}

/// Whether `c` is relative to the widget numbered `other`.
pub open spec fn relative_to(c: WidgetConstraint, other: usize) -> bool {
    match c {
        WidgetConstraint::Relative(_, o) => o.0 == other,
        WidgetConstraint::Local(_) => false,
    }
}

/// Whether some constraint of `constraints` is relative to the widget numbered `other`.
pub open spec fn mentions(constraints: Seq<WidgetConstraint>, other: usize) -> bool {
    exists|i: int| 0 <= i < constraints.len() && relative_to(#[trigger] constraints[i], other)
}

/// The constraints of `constraints` that are relative to the widget numbered `k`, in order.
pub open spec fn relative_constraints(constraints: Seq<WidgetConstraint>, k: usize) -> Seq<cassowary::Constraint>
    decreases constraints.len(),
{
    if constraints.len() == 0 {
        Seq::empty()
    } else {
        let rest = relative_constraints(constraints.drop_last(), k);
        if relative_to(constraints.last(), k) {
            rest.push(constraint_of(constraints.last()))
        } else {
            rest
        }
    }
}

/// The constraint lists after widget `w` adds `constraints`: the list of `w`
/// starts over with its constraints, and each constraint relative to another
/// widget is also appended to that widget's list, which starts empty if it had none.
pub open spec fn lists_after_add(
    lists: Map<usize, Seq<cassowary::Constraint>>,
    w: usize,
    constraints: Seq<WidgetConstraint>,
) -> Map<usize, Seq<cassowary::Constraint>> {
    Map::new(
        |k: usize| k == w || lists.contains_key(k) || mentions(constraints, k),
        |k: usize|
            if k == w {
                handed_constraints(constraints)
            } else if lists.contains_key(k) {
                lists[k] + relative_constraints(constraints, k)
            } else {
                relative_constraints(constraints, k)
            },
    )
}

proof fn lemma_no_mention(s: Seq<WidgetConstraint>, k: usize)
    requires
        !mentions(s, k),
    ensures
        relative_constraints(s, k) == Seq::<cassowary::Constraint>::empty(),
    decreases s.len(),
{
    if s.len() > 0 {
        let rest = s.drop_last();
        assert(!mentions(rest, k)) by {
            if mentions(rest, k) {
                let j = choose|j: int| 0 <= j < rest.len() && relative_to(#[trigger] rest[j], k);
                assert(s[j] == rest[j]);
            }
        }
        lemma_no_mention(rest, k);
        assert(!relative_to(s[s.len() - 1], k));
    }
}

proof fn lemma_lists_step(
    lists: Map<usize, Seq<cassowary::Constraint>>,
    w: usize,
    before: Seq<WidgetConstraint>,
    x: WidgetConstraint,
)
    ensures
        ({
            let m0 = lists_after_add(lists, w, before);
            let m1 = lists_after_add(lists, w, before.push(x));
            let c = constraint_of(x);
            match x {
                WidgetConstraint::Relative(_, o) if o.0 != w => {
                    let m2 = if m0.contains_key(o.0) {
                        m0
                    } else {
                        m0.insert(o.0, Seq::empty())
                    };
                    let m3 = m2.insert(o.0, m2[o.0].push(c));
                    m1 == m3.insert(w, m3[w].push(c))
                },
                _ => m1 == m0.insert(w, m0[w].push(c)),
            }
        }),
{
    let after = before.push(x);
    let m0 = lists_after_add(lists, w, before);
    let m1 = lists_after_add(lists, w, after);
    assert(after.drop_last() =~= before);
    assert forall|k: usize| #[trigger] mentions(after, k) == (mentions(before, k) || relative_to(x, k)) by {
        if mentions(after, k) {
            let j = choose|j: int| 0 <= j < after.len() && relative_to(#[trigger] after[j], k);
            if j < before.len() {
                assert(before[j] == after[j]);
            }
        }
        if mentions(before, k) {
            let j = choose|j: int| 0 <= j < before.len() && relative_to(#[trigger] before[j], k);
            assert(after[j] == before[j]);
        }
        if relative_to(x, k) {
            assert(after[before.len() as int] == x);
        }
    }
    let c = constraint_of(x);
    assert(handed_constraints(after) =~= handed_constraints(before).push(c));
    match x {
        WidgetConstraint::Relative(_, o) if o.0 != w => {
            let m2 = if m0.contains_key(o.0) {
                m0
            } else {
                m0.insert(o.0, Seq::empty())
            };
            let m3 = m2.insert(o.0, m2[o.0].push(c));
            assert forall|k: usize| k != o.0 implies #[trigger] relative_constraints(after, k) == relative_constraints(
                before,
                k,
            ) by {}
            if !lists.contains_key(o.0) && !mentions(before, o.0) {
                lemma_no_mention(before, o.0);
            }
            assert(relative_constraints(after, o.0) == relative_constraints(before, o.0).push(c));
            if lists.contains_key(o.0) {
                assert(m1[o.0] =~= lists[o.0] + relative_constraints(before, o.0).push(c));
            }
            assert(m1 =~= m3.insert(w, m3[w].push(c)));
        },
        _ => {
            assert forall|k: usize| k != w implies #[trigger] relative_constraints(after, k) == relative_constraints(
                before,
                k,
            ) by {}
            assert(m1 =~= m0.insert(w, m0[w].push(c)));
        },
    }
}

/// The widget that `entries` records for variable `v`.
pub open spec fn var_lookup(entries: Seq<(cassowary::Variable, WidgetId)>, v: cassowary::Variable) -> Option<
    WidgetId,
> {
    if exists|i: int| 0 <= i < entries.len() && #[trigger] entries[i].0 == v {
        let i = choose|i: int| 0 <= i < entries.len() && #[trigger] entries[i].0 == v;
        Some(entries[i].1)
    } else {
        None
    }
}

/// No variable appears twice among `entries`.
pub open spec fn vars_distinct(entries: Seq<(cassowary::Variable, WidgetId)>) -> bool {
    forall|i: int, j: int| 0 <= i < j < entries.len() ==> entries[i].0 != entries[j].0
}

proof fn lemma_var_update(entries: Seq<(cassowary::Variable, WidgetId)>, i: int, v: cassowary::Variable, w: WidgetId)
    requires
        vars_distinct(entries),
        0 <= i < entries.len(),
        entries[i].0 == v,
    ensures
        vars_distinct(entries.update(i, (v, w))),
        var_lookup(entries.update(i, (v, w)), v) == Some(w),
        forall|u: cassowary::Variable| u != v ==> #[trigger] var_lookup(entries.update(i, (v, w)), u) == var_lookup(entries, u),
{
    let updated = entries.update(i, (v, w));
    assert forall|a: int, b: int| 0 <= a < b < updated.len() implies updated[a].0 != updated[b].0 by {
        assert(entries[a].0 != entries[b].0);
    }
    assert(updated[i].0 == v);
    let c = choose|k: int| 0 <= k < updated.len() && #[trigger] updated[k].0 == v;
    assert(c == i);
    assert forall|u: cassowary::Variable| u != v implies #[trigger] var_lookup(updated, u) == var_lookup(entries, u) by {
        if exists|k: int| 0 <= k < entries.len() && #[trigger] entries[k].0 == u {
            let k = choose|k: int| 0 <= k < entries.len() && #[trigger] entries[k].0 == u;
            assert(k != i);
            assert(updated[k] == entries[k]);
            assert(updated[k].0 == u);
            let k2 = choose|k: int| 0 <= k < updated.len() && #[trigger] updated[k].0 == u;
            assert(k2 != i);
            assert(updated[k2] == entries[k2]);
            assert(k2 == k);
        } else {
            if exists|k: int| 0 <= k < updated.len() && #[trigger] updated[k].0 == u {
                let k = choose|k: int| 0 <= k < updated.len() && #[trigger] updated[k].0 == u;
                assert(entries[k].0 == u);
            }
        }
    }
}

proof fn lemma_var_push(entries: Seq<(cassowary::Variable, WidgetId)>, v: cassowary::Variable, w: WidgetId)
    requires
        vars_distinct(entries),
        forall|j: int| 0 <= j < entries.len() ==> #[trigger] entries[j].0 != v,
    ensures
        vars_distinct(entries.push((v, w))),
        var_lookup(entries.push((v, w)), v) == Some(w),
        forall|u: cassowary::Variable| u != v ==> #[trigger] var_lookup(entries.push((v, w)), u) == var_lookup(entries, u),
{
    let pushed = entries.push((v, w));
    assert forall|a: int, b: int| 0 <= a < b < pushed.len() implies pushed[a].0 != pushed[b].0 by {
        if b < entries.len() {
            assert(entries[a].0 != entries[b].0);
        } else {
            assert(pushed[a] == entries[a]);
        }
    }
    assert(pushed[entries.len() as int].0 == v);
    let c = choose|k: int| 0 <= k < pushed.len() && #[trigger] pushed[k].0 == v;
    assert(c == entries.len());
    assert forall|u: cassowary::Variable| u != v implies #[trigger] var_lookup(pushed, u) == var_lookup(entries, u) by {
        if exists|k: int| 0 <= k < entries.len() && #[trigger] entries[k].0 == u {
            let k = choose|k: int| 0 <= k < entries.len() && #[trigger] entries[k].0 == u;
            assert(pushed[k] == entries[k]);
            let k2 = choose|k: int| 0 <= k < pushed.len() && #[trigger] pushed[k].0 == u;
            assert(k2 == k);
        } else {
            if exists|k: int| 0 <= k < pushed.len() && #[trigger] pushed[k].0 == u {
                let k = choose|k: int| 0 <= k < pushed.len() && #[trigger] pushed[k].0 == u;
                assert(k < entries.len());
                assert(pushed[k] == entries[k]);
            }
        }
    }
}

/// The position of variable `v` among `entries`, if it is there.
fn var_position(entries: &Vec<(cassowary::Variable, WidgetId)>, v: &cassowary::Variable) -> (pos: Option<usize>)
    ensures
        pos matches Some(i) ==> i < entries@.len() && entries@[i as int].0 == *v,
        pos is None ==> forall|j: int| 0 <= j < entries@.len() ==> #[trigger] entries@[j].0 != *v,
{
    let mut i: usize = 0;
    while i < entries.len()
        invariant
            i <= entries@.len(),
            forall|j: int| 0 <= j < i ==> #[trigger] entries@[j].0 != *v,
        decreases entries@.len() - i,
    {
        if same_variable(&entries[i].0, v) {
            return Some(i);
        }
        i = i + 1;
    }
    None
}

/// The four variables the solver reports a widget's bounds by: its origin and its size.
pub open spec fn bound_vars(vars: LayoutVars) -> Seq<cassowary::Variable> {
    seq![vars.left, vars.top, vars.width, vars.height]
}

/// The list recorded for widget `w` in `lists`, empty when it has none.
pub open spec fn list_of(lists: Map<usize, Seq<cassowary::Constraint>>, w: usize) -> Seq<cassowary::Constraint> {
    if lists.contains_key(w) {
        lists[w]
    } else {
        Seq::empty()
    }
}

/// The `k`-th of `handed` (counting from one) is refused by `s`, the solver as it
/// was when that constraint came: `s` holds `held0` and the constraints handed
/// before it, and it holds that constraint already or `add_refused` names it.
pub open spec fn refused_at(
    held0: Set<cassowary::Constraint>,
    handed: Seq<cassowary::Constraint>,
    k: int,
    s: cassowary::Solver,
) -> bool {
    &&& 1 <= k <= handed.len()
    &&& solver_held(s) == held0.union(handed.take(k - 1).to_set())
    &&& (solver_held(s).contains(handed[k - 1]) || add_refused(s, handed[k - 1]))
}

/// Removing `c`, one of the constraints in `list`, from `s`, which holds it, fails.
pub open spec fn removal_failed(list: Seq<cassowary::Constraint>, s: cassowary::Solver, c: cassowary::Constraint) -> bool {
    &&& list.contains(c)
    &&& solver_held(s).contains(c)
    &&& remove_fails(s, c)
}

/// Wraps the `cassowary` solver and records, per widget, the constraints added
/// for it and, per variable, the widget whose bounds it holds, so that the
/// changes the solver makes can be sent to the widgets as layout changes.
pub struct LimnSolver {
    pub solver: cassowary::Solver,
    vars: VarTable,
    constraint_map: HashMap<usize, Vec<cassowary::Constraint>>,
}

/// The widget whose bounds each recorded variable holds.
struct VarTable {
    entries: Vec<(cassowary::Variable, WidgetId)>,
}

impl VarTable {
    /// No variable is recorded twice.
    #[verifier::type_invariant]
    spec fn wf(&self) -> bool {
        vars_distinct(self.entries@)
    }
}

proof fn lemma_forget(entries: Seq<(cassowary::Variable, WidgetId)>, kept: Seq<(cassowary::Variable, WidgetId)>, w: WidgetId)
    requires
        vars_distinct(entries),
        vars_distinct(kept),
        forall|k: int|
            0 <= k < kept.len() ==> kept[k].1 != w && exists|j: int| 0 <= j < entries.len() && entries[j] == #[trigger] kept[k],
        forall|j: int| 0 <= j < entries.len() && entries[j].1 != w ==> kept.contains(#[trigger] entries[j]),
    ensures
        forall|u: cassowary::Variable|
            #[trigger] var_lookup(kept, u) == (if var_lookup(entries, u) == Some(w) {
                None
            } else {
                var_lookup(entries, u)
            }),
{
    assert forall|u: cassowary::Variable|
        #[trigger] var_lookup(kept, u) == (if var_lookup(entries, u) == Some(w) {
            None
        } else {
            var_lookup(entries, u)
        }) by {
        if exists|j: int| 0 <= j < entries.len() && #[trigger] entries[j].0 == u {
            let j = choose|j: int| 0 <= j < entries.len() && #[trigger] entries[j].0 == u;
            assert(var_lookup(entries, u) == Some(entries[j].1));
            if entries[j].1 == w {
                if exists|k: int| 0 <= k < kept.len() && #[trigger] kept[k].0 == u {
                    let k = choose|k: int| 0 <= k < kept.len() && #[trigger] kept[k].0 == u;
                    let j2 = choose|j2: int| 0 <= j2 < entries.len() && entries[j2] == #[trigger] kept[k];
                    assert(entries[j2].0 == u);
                    if j2 < j {
                        assert(entries[j2].0 != entries[j].0);
                    } else if j < j2 {
                        assert(entries[j].0 != entries[j2].0);
                    }
                    assert(false);
                }
            } else {
                assert(kept.contains(entries[j]));
                let k = choose|k: int| 0 <= k < kept.len() && kept[k] == entries[j];
                assert(kept[k].0 == u);
                let k2 = choose|k2: int| 0 <= k2 < kept.len() && #[trigger] kept[k2].0 == u;
                if k2 < k {
                    assert(kept[k2].0 != kept[k].0);
                } else if k < k2 {
                    assert(kept[k].0 != kept[k2].0);
                }
            }
        } else {
            if exists|k: int| 0 <= k < kept.len() && #[trigger] kept[k].0 == u {
                let k = choose|k: int| 0 <= k < kept.len() && #[trigger] kept[k].0 == u;
                let j2 = choose|j2: int| 0 <= j2 < entries.len() && entries[j2] == #[trigger] kept[k];
                assert(entries[j2].0 == u);
            }
        }
    }
}

impl LimnSolver {
    /// The constraints recorded for each widget, by the widget's number.
    pub closed spec fn constraints(&self) -> Map<usize, Seq<cassowary::Constraint>> {
        self.constraint_map@.map_values(|l: Vec<cassowary::Constraint>| l@)
    }

    /// The widget whose bounds variable `v` holds, if any.
    pub closed spec fn var_widget(&self, v: cassowary::Variable) -> Option<WidgetId> {
        var_lookup(self.vars.entries@, v)
    }

    /// The constraints the `cassowary` solver holds.
    pub closed spec fn held(&self) -> Set<cassowary::Constraint> {
        solver_held(self.solver)
    }

    /// The edit variables of the `cassowary` solver.
    pub closed spec fn edit_vars(&self) -> Set<cassowary::Variable> {
        solver_edit_vars(self.solver)
    }

    /// Whether the `cassowary` solver refuses `c`, which it does not hold (see `add_refused`).
    pub closed spec fn refuses(&self, c: cassowary::Constraint) -> bool {
        add_refused(self.solver, c)
    }

    pub fn new() -> (s: Self)
        ensures
            s.constraints() == Map::<usize, Seq<cassowary::Constraint>>::empty(),
            forall|v: cassowary::Variable| #[trigger] s.var_widget(v) is None,
            s.held() == Set::<cassowary::Constraint>::empty(),
            s.edit_vars() == Set::<cassowary::Variable>::empty(),
    {
        let s = LimnSolver {
            solver: solver_new(),
            vars: VarTable { entries: Vec::new() },
            constraint_map: HashMap::new(),
        };
        assert(s.constraints() =~= Map::<usize, Seq<cassowary::Constraint>>::empty());
        s
    }

    /// Whether the solver holds `constraint`.
    pub fn has_constraint(&self, constraint: &cassowary::Constraint) -> (r: bool)
        ensures
            r == self.held().contains(*constraint),
    {
        solver_has_constraint(&self.solver, constraint)
    }

    /// Whether `v` is an edit variable of the solver.
    pub fn has_edit_variable(&self, v: &cassowary::Variable) -> (r: bool)
        ensures
            r == self.edit_vars().contains(*v),
    {
        solver_has_edit_variable(&self.solver, v)
    }

    /// The widget whose bounds variable `v` holds, if any.
    pub fn widget_of(&self, v: &cassowary::Variable) -> (w: Option<WidgetId>)
        ensures
            w == self.var_widget(*v),
    {
        proof {
            use_type_invariant(&self.vars);
        }
        match var_position(&self.vars.entries, v) {
            Some(i) => {
                let ghost entries = self.vars.entries@;
                let ghost c = choose|k: int| 0 <= k < entries.len() && #[trigger] entries[k].0 == *v;
                assert(entries[c].0 == entries[i as int].0);
                assert(c == i);
                Some(self.vars.entries[i].1)
            },
            None => None,
        }
    }

    /// Records that variable `v` holds a bound of widget `w`.
    fn set_var_widget(&mut self, v: cassowary::Variable, w: WidgetId)
        ensures
            final(self).var_widget(v) == Some(w),
            forall|u: cassowary::Variable| u != v ==> #[trigger] final(self).var_widget(u) == old(self).var_widget(u),
            final(self).constraint_map == old(self).constraint_map,
            final(self).solver == old(self).solver,
    {
        proof {
            use_type_invariant(&self.vars);
        }
        let ghost entries0 = self.vars.entries@;
        let mut entries: Vec<(cassowary::Variable, WidgetId)> = Vec::new();
        std::mem::swap(&mut entries, &mut self.vars.entries);
        assert(entries@ == entries0);
        match var_position(&entries, &v) {
            Some(i) => {
                proof {
                    lemma_var_update(entries0, i as int, v, w);
                }
                entries.set(i, (v, w));
            },
            None => {
                proof {
                    lemma_var_push(entries0, v, w);
                }
                entries.push((v, w));
            },
        }
        std::mem::swap(&mut entries, &mut self.vars.entries);
    }

    /// Forgets every variable recorded for widget `w`.
    fn forget_widget(&mut self, w: WidgetId)
        ensures
            forall|u: cassowary::Variable|
                #[trigger] final(self).var_widget(u) == (if old(self).var_widget(u) == Some(w) {
                    None
                } else {
                    old(self).var_widget(u)
                }),
            final(self).constraint_map == old(self).constraint_map,
            final(self).solver == old(self).solver,
    {
        proof {
            use_type_invariant(&self.vars);
        }
        let ghost entries0 = self.vars.entries@;
        let mut entries: Vec<(cassowary::Variable, WidgetId)> = Vec::new();
        std::mem::swap(&mut entries, &mut self.vars.entries);
        let mut kept: Vec<(cassowary::Variable, WidgetId)> = Vec::new();
        let mut i: usize = 0;
        while i < entries.len()
            invariant
                entries@ == entries0,
                vars_distinct(entries0),
                i <= entries0.len(),
                vars_distinct(kept@),
                forall|k: int|
                    0 <= k < kept@.len() ==> kept@[k].1 != w && exists|j: int|
                        0 <= j < i && entries0[j] == #[trigger] kept@[k],
                forall|j: int| 0 <= j < i && entries0[j].1 != w ==> kept@.contains(#[trigger] entries0[j]),
            decreases entries0.len() - i,
        {
            let e = entries[i];
            if e.1.0 != w.0 {
                let ghost before = kept@;
                proof {
                    assert forall|k: int| 0 <= k < before.len() implies #[trigger] before[k].0 != e.0 by {
                        let j = choose|j: int| 0 <= j < i && entries0[j] == #[trigger] before[k];
                        assert(entries0[j].0 != entries0[i as int].0);
                    }
                }
                kept.push(e);
                proof {
                    assert forall|a: int, b: int| 0 <= a < b < kept@.len() implies kept@[a].0 != kept@[b].0 by {
                        if b < before.len() {
                            assert(before[a].0 != before[b].0);
                        } else {
                            assert(kept@[a] == before[a]);
                        }
                    }
                    assert forall|k: int|
                        0 <= k < kept@.len() implies kept@[k].1 != w && exists|j: int|
                            0 <= j < i + 1 && entries0[j] == #[trigger] kept@[k] by {
                        if k < before.len() {
                            assert(kept@[k] == before[k]);
                            let j = choose|j: int| 0 <= j < i && entries0[j] == #[trigger] before[k];
                            assert(entries0[j] == kept@[k]);
                        } else {
                            assert(entries0[i as int] == kept@[k]);
                        }
                    }
                    assert forall|j: int| 0 <= j < i + 1 && entries0[j].1 != w implies kept@.contains(
                        #[trigger] entries0[j],
                    ) by {
                        if j < i {
                            assert(before.contains(entries0[j]));
                            let k = choose|k: int| 0 <= k < before.len() && before[k] == entries0[j];
                            assert(kept@[k] == before[k]);
                        } else {
                            assert(kept@[before.len() as int] == entries0[j]);
                        }
                    }
                }
            } else {
                proof {
                    assert forall|k: int|
                        0 <= k < kept@.len() implies kept@[k].1 != w && exists|j: int|
                            0 <= j < i + 1 && entries0[j] == #[trigger] kept@[k] by {
                        let j = choose|j: int| 0 <= j < i && entries0[j] == #[trigger] kept@[k];
                        assert(entries0[j] == kept@[k]);
                    }
                }
            }
            i = i + 1;
        }
        proof {
            assert forall|k: int| 0 <= k < kept@.len() implies kept@[k].1 != w && exists|j: int|
                0 <= j < entries0.len() && entries0[j] == #[trigger] kept@[k] by {
                let j = choose|j: int| 0 <= j < i && entries0[j] == #[trigger] kept@[k];
                assert(entries0[j] == kept@[k]);
            }
            lemma_forget(entries0, kept@, w);
        }
        std::mem::swap(&mut kept, &mut self.vars.entries);
    }

    /// Appends `c` to the list recorded for the widget numbered `w`, which has one.
    fn record(&mut self, w: usize, c: cassowary::Constraint)
        requires
            old(self).constraints().contains_key(w),
        ensures
            final(self).constraints() == old(self).constraints().insert(w, old(self).constraints()[w].push(c)),
            final(self).vars.entries == old(self).vars.entries,
            final(self).solver == old(self).solver,
    {
        match self.constraint_map.remove(&w) {
            Some(mut list) => {
                list.push(c);
                self.constraint_map.insert(w, list);
            },
            None => {},
        }
        assert(self.constraints() =~= old(self).constraints().insert(w, old(self).constraints()[w].push(c)));
    }

    /// Adds the constraints of a widget and records the variables of its bounds.
    /// Its list of constraints starts over; a constraint relative to another
    /// widget is recorded for that widget too (which gets a list if it has none),
    /// so that removing either widget takes it out of the solver. Each constraint is handed to the solver once, in order;
    /// the first one it refuses ends the call with `ConstraintRefused`.
    pub fn add_widget(&mut self, widget: WidgetId, vars: &LayoutVars, constraints: Vec<WidgetConstraint>) -> (r: Result<
        (),
        SolverError,
    >)
        ensures
            final(self).edit_vars() == old(self).edit_vars(),
            r is Ok ==> {
                &&& final(self).held() == old(self).held().union(handed_constraints(constraints@).to_set())
                &&& final(self).constraints() == lists_after_add(old(self).constraints(), widget.0, constraints@)
                &&& forall|i: int| 0 <= i < 4 ==> #[trigger] final(self).var_widget(bound_vars(*vars)[i]) == Some(widget)
                &&& forall|u: cassowary::Variable|
                    !bound_vars(*vars).contains(u) ==> #[trigger] final(self).var_widget(u) == old(self).var_widget(u)
            },
            r is Err ==> {
                &&& r == Err::<(), SolverError>(SolverError::ConstraintRefused)
                &&& exists|k: int, s: cassowary::Solver|
                    #[trigger] refused_at(old(self).held(), handed_constraints(constraints@), k, s)
            },
    {
        proof {
            use_type_invariant(&self.vars);
        }
        let ghost lists0 = self.constraints();
        let ghost held0 = self.held();
        let ghost hc = handed_constraints(constraints@);
        self.constraint_map.insert(widget.0, Vec::new());
        proof {
            assert(handed_constraints(constraints@.take(0)) =~= Seq::<cassowary::Constraint>::empty());
            assert(self.constraints() =~= lists_after_add(lists0, widget.0, constraints@.take(0)));
            assert(hc.take(0).to_set() =~= Set::<cassowary::Constraint>::empty());
            assert(held0.union(hc.take(0).to_set()) =~= held0);
        }
        let mut i: usize = 0;
        while i < constraints.len()
            invariant
                i <= constraints@.len(),
                hc == handed_constraints(constraints@),
                vars_distinct(self.vars.entries@),
                self.vars.entries == old(self).vars.entries,
                self.constraints() == lists_after_add(lists0, widget.0, constraints@.take(i as int)),
                self.held() == held0.union(hc.take(i as int).to_set()),
                held0 == old(self).held(),
                self.edit_vars() == old(self).edit_vars(),
            decreases constraints@.len() - i,
        {
            let ghost before = constraints@.take(i as int);
            let ghost m0 = self.constraints();
            proof {
                assert(constraints@.take(i + 1) =~= before.push(constraints@[i as int]));
                lemma_lists_step(lists0, widget.0, before, constraints@[i as int]);
            }
            let c = match &constraints[i] {
                WidgetConstraint::Local(c) => c.clone(),
                WidgetConstraint::Relative(c, other) => {
                    let o = other.0;
                    if o != widget.0 {
                        if !self.constraint_map.contains_key(&o) {
                            self.constraint_map.insert(o, Vec::new());
                            assert(self.constraints() =~= m0.insert(o, Seq::empty()));
                        }
                        self.record(o, c.clone());
                    }
                    c.clone()
                },
            };
            self.record(widget.0, c.clone());
            assert(c == hc[i as int]);
            let ghost s = self.solver;
            let added = solver_add_constraint(&mut self.solver, c);
            if !added {
                proof {
                    assert(refused_at(held0, hc, i + 1, s));
                }
                return Err(SolverError::ConstraintRefused);
            }
            proof {
                assert(hc.take(i + 1) =~= hc.take(i as int).push(hc[i as int]));
                hc.take(i as int).lemma_push_to_set_commute(hc[i as int]);
                assert(held0.union(hc.take(i + 1).to_set()) =~= held0.union(hc.take(i as int).to_set()).insert(
                    hc[i as int],
                ));
            }
            i = i + 1;
        }
        proof {
            assert(constraints@.take(constraints@.len() as int) =~= constraints@);
            assert(hc.take(hc.len() as int) =~= hc);
        }
        self.set_var_widget(vars.left, widget);
        self.set_var_widget(vars.top, widget);
        self.set_var_widget(vars.width, widget);
        self.set_var_widget(vars.height, widget);
        proof {
            let b = bound_vars(*vars);
            assert(b[0] == vars.left && b[1] == vars.top && b[2] == vars.width && b[3] == vars.height);
        }
        Ok(())
    }

    /// Hands `c` to the solver for widget `widget`; once the solver takes it, it
    /// is appended to that widget's list. `ConstraintRefused` when the solver
    /// holds it already or cannot take it.
    pub fn add_constraint(&mut self, widget: WidgetId, c: cassowary::Constraint) -> (r: Result<(), SolverError>)
        ensures
            constraint_added(*old(self), *final(self), widget, c, r),
    {
        let ghost s0 = *self;
        let added = solver_add_constraint(&mut self.solver, c.clone());
        if !added {
            return Err(SolverError::ConstraintRefused);
        }
        if !self.constraint_map.contains_key(&widget.0) {
            self.constraint_map.insert(widget.0, Vec::new());
            assert(self.constraints() =~= s0.constraints().insert(widget.0, Seq::empty()));
        }
        let ghost cc = c;
        self.record(widget.0, c);
        assert(self.constraints() =~= s0.constraints().insert(widget.0, list_of(s0.constraints(), widget.0).push(cc)));
        Ok(())
    }

    /// Of the new values of solver variables in `changes`, those of the bounds of
    /// a known widget, each with the widget and the bound it holds.
    pub fn widget_changes<T: Copy>(
        &self,
        changes: &Vec<(cassowary::Variable, T)>,
        layouts: &HashMap<usize, LayoutVars>,
    ) -> (r: Vec<(WidgetId, VarType, T)>)
        ensures
            r@ == widget_changes_of(*self, layouts@, changes@),
    {
        let mut out: Vec<(WidgetId, VarType, T)> = Vec::new();
        let mut i: usize = 0;
        while i < changes.len()
            invariant
                i <= changes@.len(),
                out@ == widget_changes_of(*self, layouts@, changes@.take(i as int)),
            decreases changes@.len() - i,
        {
            let (var, value) = changes[i];
            proof {
                assert(changes@.take(i + 1).drop_last() =~= changes@.take(i as int));
                assert(changes@.take(i + 1).last() == changes@[i as int]);
            }
            match self.widget_of(&var) {
                Some(w) => match layouts.get(&w.0) {
                    Some(vars) => {
                        out.push((w, vars.var_type(&var), value));
                    },
                    None => {},
                },
                None => {},
            }
            i = i + 1;
        }
        assert(changes@.take(changes@.len() as int) =~= changes@);
        out
    }

    /// Hands the constraints of `layout` to the solver for `widget`, in order, each
    /// built with `VarConstraint::to_cassowary`; those it takes are appended to the
    /// widget's list. The first one it refuses ends the call with `ConstraintRefused`.
    pub fn update_from_builder(&mut self, widget: WidgetId, layout: &LayoutBuilder) -> (r: Result<(), SolverError>)
        ensures
            final(self).edit_vars() == old(self).edit_vars(),
            forall|u: cassowary::Variable| #[trigger] final(self).var_widget(u) == old(self).var_widget(u),
            r is Ok ==> exists|cs: Seq<cassowary::Constraint>| #[trigger]
                builder_added(*old(self), *final(self), widget, layout.constraints@, cs),
            r is Err ==> {
                &&& r == Err::<(), SolverError>(SolverError::ConstraintRefused)
                &&& exists|s: LimnSolver, c: cassowary::Constraint| #[trigger]
                    refused_one_of(layout.constraints@, s, c)
            },
    {
        let ghost s0 = *self;
        let ghost mut cs: Seq<cassowary::Constraint> = Seq::empty();
        proof {
            assert(cs.to_set() =~= Set::<cassowary::Constraint>::empty());
            assert(s0.held().union(cs.to_set()) =~= s0.held());
        }
        let mut i: usize = 0;
        while i < layout.constraints.len()
            invariant
                i <= layout.constraints@.len(),
                cs.len() == i,
                forall|j: int| 0 <= j < i ==> constraint_parts(#[trigger] cs[j]) == layout.constraints@[j],
                self.held() == s0.held().union(cs.to_set()),
                self.constraints() == lists_with(s0.constraints(), widget.0, cs),
                self.edit_vars() == s0.edit_vars(),
                forall|u: cassowary::Variable| #[trigger] self.var_widget(u) == s0.var_widget(u),
                s0 == *old(self),
            decreases layout.constraints@.len() - i,
        {
            let c = layout.constraints[i].to_cassowary();
            let ghost before = *self;
            let ghost handed = c;
            match self.add_constraint(widget, c) {
                Ok(()) => {},
                Err(e) => {
                    proof {
                        assert(layout.constraints@[i as int] == constraint_parts(handed));
                        assert(refused_one_of(layout.constraints@, before, handed));
                    }
                    return Err(e);
                },
            }
            proof {
                cs.lemma_push_to_set_commute(handed);
                assert(self.held() =~= s0.held().union(cs.push(handed).to_set()));
                let l0 = list_of(s0.constraints(), widget.0);
                assert(list_of(before.constraints(), widget.0) =~= l0 + cs);
                assert(l0 + cs.push(handed) =~= (l0 + cs).push(handed));
                cs = cs.push(handed);
            }
            i = i + 1;
        }
        proof {
            assert(builder_added(s0, *self, widget, layout.constraints@, cs));
        }
        Ok(())
    }

    /// What to tell the Ui after the solver changed the values in `changes`: the
    /// changes of the bounds of known widgets, or nothing when there are none.
    pub fn layout_changed<T: Copy>(
        &self,
        changes: &Vec<(cassowary::Variable, T)>,
        layouts: &HashMap<usize, LayoutVars>,
    ) -> (e: Option<Vec<(WidgetId, VarType, T)>>)
        ensures
            e is Some == (widget_changes_of(*self, layouts@, changes@).len() > 0),
            e matches Some(cs) ==> cs@ == widget_changes_of(*self, layouts@, changes@),
    {
        let cs = self.widget_changes(changes, layouts);
        if cs.len() > 0 {
            Some(cs)
        } else {
            None
        }
    }

    /// Takes out of the solver the constraints recorded for a widget (those the
    /// solver still holds), forgets its list and the variables recorded for it.
    /// `RemoveFailed` if the solver fails to remove one it holds.
    pub fn remove_widget(&mut self, widget_id: &WidgetId) -> (r: Result<(), SolverError>)
        ensures
            final(self).edit_vars() == old(self).edit_vars(),
            r is Ok ==> {
                &&& final(self).held() == old(self).held().difference(
                    list_of(old(self).constraints(), widget_id.0).to_set(),
                )
                &&& final(self).constraints() == old(self).constraints().remove(widget_id.0)
                &&& forall|u: cassowary::Variable|
                    #[trigger] final(self).var_widget(u) == (if old(self).var_widget(u) == Some(*widget_id) {
                        None
                    } else {
                        old(self).var_widget(u)
                    })
            },
            r is Err ==> {
                &&& r == Err::<(), SolverError>(SolverError::RemoveFailed)
                &&& exists|s: cassowary::Solver, c: cassowary::Constraint|
                    #[trigger] removal_failed(list_of(old(self).constraints(), widget_id.0), s, c)
            },
    {
        proof {
            use_type_invariant(&self.vars);
        }
        let ghost held0 = self.held();
        let ghost l = list_of(self.constraints(), widget_id.0);
        match self.constraint_map.get(&widget_id.0) {
            Some(list) => {
                assert(list@ == l);
                let mut i: usize = 0;
                proof {
                    assert(l.take(0).to_set() =~= Set::<cassowary::Constraint>::empty());
                    assert(held0.difference(l.take(0).to_set()) =~= held0);
                }
                while i < list.len()
                    invariant
                        i <= l.len(),
                        list@ == l,
                        self.constraint_map == old(self).constraint_map,
                        self.vars.entries == old(self).vars.entries,
                        vars_distinct(self.vars.entries@),
                        held0 == old(self).held(),
                        l == list_of(old(self).constraints(), widget_id.0),
                        self.held() == held0.difference(l.take(i as int).to_set()),
                        self.edit_vars() == old(self).edit_vars(),
                    decreases l.len() - i,
                {
                    let c = &list[i];
                    let ghost s = self.solver;
                    proof {
                        assert(l.take(i + 1) =~= l.take(i as int).push(*c));
                        l.take(i as int).lemma_push_to_set_commute(*c);
                        assert(held0.difference(l.take(i + 1).to_set()) =~= held0.difference(
                            l.take(i as int).to_set(),
                        ).remove(*c));
                    }
                    if solver_has_constraint(&self.solver, c) {
                        if !solver_remove_constraint(&mut self.solver, c) {
                            proof {
                                assert(l[i as int] == *c);
                                assert(l.contains(*c));
                                assert(removal_failed(l, s, *c));
                            }
                            return Err(SolverError::RemoveFailed);
                        }
                    }
                    i = i + 1;
                }
                assert(l.take(l.len() as int) =~= l);
            },
            None => {
                assert(l.to_set() =~= Set::<cassowary::Constraint>::empty());
                assert(held0.difference(l.to_set()) =~= held0);
            },
        }
        self.constraint_map.remove(&widget_id.0);
        assert(self.constraints() =~= old(self).constraints().remove(widget_id.0));
        self.forget_widget(*widget_id);
        Ok(())
    }
}

/// The changes among `changes` (new values of solver variables) that concern a
/// widget: those whose variable `s` records for a widget with variables in
/// `layouts`, in order, each with its widget and the bound it holds.
pub open spec fn widget_changes_of<T>(
    s: LimnSolver,
    layouts: Map<usize, LayoutVars>,
    changes: Seq<(cassowary::Variable, T)>,
) -> Seq<(WidgetId, VarType, T)>
    decreases changes.len(),
{
    if changes.len() == 0 {
        Seq::empty()
    } else {
        let rest = widget_changes_of(s, layouts, changes.drop_last());
        let (v, x) = changes.last();
        match s.var_widget(v) {
            Some(w) => if layouts.contains_key(w.0) {
                rest.push((w, spec_var_type(layouts[w.0], v), x))
            } else {
                rest
            },
            None => rest,
        }
    }
}

/// `lists` after the constraints `cs` were appended, in order, to the list of
/// widget `w`; unchanged when there are none.
pub open spec fn lists_with(
    lists: Map<usize, Seq<cassowary::Constraint>>,
    w: usize,
    cs: Seq<cassowary::Constraint>,
) -> Map<usize, Seq<cassowary::Constraint>> {
    if cs.len() == 0 {
        lists
    } else {
        lists.insert(w, list_of(lists, w) + cs)
    }
}

/// What `update_from_builder(widget, layout)` did when it succeeded, taking the
/// solver from `s0` to `s1`: `cs` are the constraints it built, one for each of
/// `wanted` and stating it; the solver now holds them too, and they end the
/// widget's list.
pub open spec fn builder_added(
    s0: LimnSolver,
    s1: LimnSolver,
    widget: WidgetId,
    wanted: Seq<VarConstraint>,
    cs: Seq<cassowary::Constraint>,
) -> bool {
    &&& cs.len() == wanted.len()
    &&& forall|j: int| 0 <= j < cs.len() ==> constraint_parts(#[trigger] cs[j]) == wanted[j]
    &&& s1.held() == s0.held().union(cs.to_set())
    &&& s1.constraints() == lists_with(s0.constraints(), widget.0, cs)
}

/// The solver `s` refused `c`, built for one of the constraints `wanted`: it held
/// `c` already or could not take it.
pub open spec fn refused_one_of(wanted: Seq<VarConstraint>, s: LimnSolver, c: cassowary::Constraint) -> bool {
    &&& exists|k: int| 0 <= k < wanted.len() && #[trigger] wanted[k] == constraint_parts(c)
    &&& (s.held().contains(c) || s.refuses(c))
}

/// What `add_constraint(widget, c)` did to the solver, taking it from `s0` to `s1`
/// with result `r`: `Ok` exactly when the solver held no `c` and could take it,
/// and then the solver holds `c` too and `widget`'s list ends with it; on
/// `ConstraintRefused` the lists stay as they were. Edit variables and the
/// variables of bounds stay as they were.
pub open spec fn constraint_added(
    s0: LimnSolver,
    s1: LimnSolver,
    widget: WidgetId,
    c: cassowary::Constraint,
    r: Result<(), SolverError>,
) -> bool {
    &&& (r is Ok) == (!s0.held().contains(c) && !s0.refuses(c))
    &&& r is Ok ==> s1.held() == s0.held().insert(c) && s1.constraints() == s0.constraints().insert(
        widget.0,
        list_of(s0.constraints(), widget.0).push(c),
    )
    &&& r is Err ==> r == Err::<(), SolverError>(SolverError::ConstraintRefused) && s1.constraints()
        == s0.constraints()
    &&& s1.edit_vars() == s0.edit_vars()
    &&& forall|u: cassowary::Variable| #[trigger] s1.var_widget(u) == s0.var_widget(u)
}

} // verus!

verus! {

/// Removing a widget right after adding it takes away exactly its own list of
/// constraints: every other widget keeps the list it had, extended by the added
/// constraints relative to it, which a widget without a list gets as its list.
pub proof fn law_add_then_remove_constraints(
    lists: Map<usize, Seq<cassowary::Constraint>>,
    w: usize,
    constraints: Seq<WidgetConstraint>,
)
    ensures
        !lists_after_add(lists, w, constraints).remove(w).contains_key(w),
        forall|k: usize|
            k != w && lists.contains_key(k) ==> #[trigger] lists_after_add(lists, w, constraints).remove(w).contains_key(k)
                && lists_after_add(lists, w, constraints).remove(w)[k] == lists[k] + relative_constraints(constraints, k),
        forall|k: usize|
            k != w && !lists.contains_key(k) && mentions(constraints, k) ==> #[trigger] lists_after_add(
                lists,
                w,
                constraints,
            ).remove(w)[k] == relative_constraints(constraints, k),
{
}

/// Adding a widget (with `add_widget`) and then removing it (with
/// `remove_widget`), both succeeding, leaves the solver holding none of the
/// widget's constraints, and every other constraint it held before.
pub proof fn law_add_then_remove_widget_in_solver(
    s0: LimnSolver,
    s1: LimnSolver,
    s2: LimnSolver,
    w: WidgetId,
    constraints: Seq<WidgetConstraint>,
)
    requires
        s1.held() == s0.held().union(handed_constraints(constraints).to_set()),
        s1.constraints() == lists_after_add(s0.constraints(), w.0, constraints),
        s2.held() == s1.held().difference(list_of(s1.constraints(), w.0).to_set()),
    ensures
        forall|c: cassowary::Constraint| handed_constraints(constraints).contains(c) ==> !#[trigger] s2.held().contains(c),
        s2.held() == s0.held().difference(handed_constraints(constraints).to_set()),
{
    assert(list_of(s1.constraints(), w.0) == handed_constraints(constraints));
    assert(s2.held() =~= s0.held().difference(handed_constraints(constraints).to_set()));
}

/// The solver `s` holds a constraint stating `v`, and it is on the list of widget `w`.
pub open spec fn holds_stating(s: LimnSolver, w: usize, v: VarConstraint) -> bool {
    exists|c: cassowary::Constraint|
        #[trigger] s.held().contains(c) && constraint_parts(c) == v && list_of(s.constraints(), w).contains(c)
}

/// After `update_from_builder` succeeds, every constraint of the layout is held
/// by the solver: for each there is a held constraint stating it, and it is on
/// the widget's list.
pub proof fn law_builder_constraints_held(
    s0: LimnSolver,
    s1: LimnSolver,
    widget: WidgetId,
    wanted: Seq<VarConstraint>,
    cs: Seq<cassowary::Constraint>,
)
    requires
        builder_added(s0, s1, widget, wanted, cs),
    ensures
        forall|j: int| 0 <= j < wanted.len() ==> holds_stating(s1, widget.0, #[trigger] wanted[j]),
{
    assert forall|j: int| 0 <= j < wanted.len() implies holds_stating(s1, widget.0, #[trigger] wanted[j]) by {
        let c = cs[j];
        assert(cs.to_set().contains(c));
        let l0 = list_of(s0.constraints(), widget.0);
        let l = l0 + cs;
        assert(l[l0.len() + j] == c);
        assert(list_of(s1.constraints(), widget.0) == l);
        assert(list_of(s1.constraints(), widget.0).contains(c));
        assert(s1.held().contains(c));
        assert(constraint_parts(c) == wanted[j]);
    }
}

} // verus!
