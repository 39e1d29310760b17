pub mod keyboard;
pub mod mouse;
pub mod tree;
pub mod solver;
pub mod input;
pub mod graph;
pub mod walk;

use vstd::prelude::*;

use crate::event::Target;
use crate::resources::id::WidgetId;
use crate::ui::tree::{Bfs, WidgetTree};
use crate::ui::walk::CursorWidgetWalker;

verus! {

/// The widgets of `deliveries`, in order.
pub open spec fn delivered_to(deliveries: Seq<(WidgetId, bool, bool)>) -> Seq<WidgetId> {
    deliveries.map_values(|d: (WidgetId, bool, bool)| d.0)
}

/// `deliveries` start at `w`, and each goes on to the parent of the widget
/// before, which did not handle the event; the next one goes to `next`.
pub open spec fn bubble_prefix(
    parents: Map<usize, WidgetId>,
    w: WidgetId,
    deliveries: Seq<(WidgetId, bool, bool)>,
    next: WidgetId,
) -> bool {
    &&& deliveries.len() > 0
    &&& deliveries[0].0 == w
    &&& forall|i: int|
        0 <= i < deliveries.len() - 1 ==> !(#[trigger] deliveries[i]).1 && parents.contains_key(deliveries[i].0.0)
            && deliveries[i + 1].0 == parents[deliveries[i].0.0]
    &&& !deliveries.last().1
    &&& parents.contains_key(deliveries.last().0.0)
    &&& next == parents[deliveries.last().0.0]
}

/// A bubbling event went to `w` first, then to the parent of each widget that
/// did not handle it, and stopped at a widget that handled it or has no parent.
pub open spec fn bubble_chain(parents: Map<usize, WidgetId>, w: WidgetId, deliveries: Seq<(WidgetId, bool, bool)>) -> bool {
    &&& deliveries.len() > 0
    &&& deliveries[0].0 == w
    &&& forall|i: int|
        0 <= i < deliveries.len() - 1 ==> !(#[trigger] deliveries[i]).1 && parents.contains_key(deliveries[i].0.0)
            && deliveries[i + 1].0 == parents[deliveries[i].0.0]
    &&& (deliveries.last().1 || !parents.contains_key(deliveries.last().0.0))
}

/// The widget tree of an application window and the state that decides when
/// it is drawn and closed.
pub struct Ui {
    root: WidgetId,
    tree: WidgetTree,
    needs_redraw: bool,
    should_close: bool,
    debug_draw_bounds: bool,
}

impl Ui {
    /// The tree is well formed and holds the root.
    #[verifier::type_invariant]
    spec fn inv(&self) -> bool {
        &&& self.tree.wf()
        &&& self.tree.contains(self.root)
    }

    /// The root widget.
    pub closed spec fn root(&self) -> WidgetId {
        self.root
    }

    /// The widget tree.
    pub closed spec fn tree(&self) -> WidgetTree {
        self.tree
    }

    /// Whether the Ui is marked to be drawn again.
    pub closed spec fn redraw_pending(&self) -> bool {
        self.needs_redraw
    }

    /// The widget tree.
    pub fn widgets(&self) -> (t: &WidgetTree)
        ensures
            *t == self.tree(),
    {
        &self.tree
    }

    /// Attaches a new widget as the last child of `parent`; the Ui is then redrawn.
    pub fn add_widget(&mut self, parent: WidgetId, child: WidgetId)
        requires
            old(self).tree().contains(parent),
            !old(self).tree().contains(child),
        ensures
            final(self).tree().wf(),
            final(self).tree().children() == old(self).tree().children().insert(
                parent.0,
                old(self).tree().children()[parent.0].push(child),
            ).insert(child.0, Seq::empty()),
            final(self).tree().parents() == old(self).tree().parents().insert(child.0, parent),
            final(self).root() == old(self).root(),
            final(self).redraw_pending(),
            final(self).closing() == old(self).closing(),
            final(self).drawing_bounds() == old(self).drawing_bounds(),
    {
        proof {
            use_type_invariant(&*self);
        }
        let mut tree = WidgetTree::new(self.root);
        std::mem::swap(&mut tree, &mut self.tree);
        tree.add_child(parent, child);
        std::mem::swap(&mut tree, &mut self.tree);
        self.needs_redraw = true;
    }

    /// Whether the Ui was asked to close.
    pub closed spec fn closing(&self) -> bool {
        self.should_close
    }

    /// Whether the bounds of every widget are drawn.
    pub closed spec fn drawing_bounds(&self) -> bool {
        self.debug_draw_bounds
    }

    /// A Ui holding only the root widget, to be drawn.
    pub fn new(root: WidgetId) -> (ui: Self)
        ensures
            ui.root() == root,
            ui.tree().wf(),
            ui.tree().contains(root),
            ui.redraw_pending(),
            !ui.closing(),
            !ui.drawing_bounds(),
    {
        Ui {
            root: root,
            tree: WidgetTree::new(root),
            needs_redraw: true,
            should_close: false,
            debug_draw_bounds: false,
        }
    }

    /// Asks the Ui to close.
    pub fn close(&mut self)
        ensures
            final(self).closing(),
            final(self).root() == old(self).root(),
            final(self).tree() == old(self).tree(),
            final(self).redraw_pending() == old(self).redraw_pending(),
            final(self).drawing_bounds() == old(self).drawing_bounds(),
    {
        proof {
            use_type_invariant(&*self);
        }
        self.should_close = true;
    }

    pub fn should_close(&self) -> (r: bool)
        ensures
            r == self.closing(),
    {
        self.should_close
    }

    pub fn debug_draw_bounds(&self) -> (r: bool)
        ensures
            r == self.drawing_bounds(),
    {
        self.debug_draw_bounds
    }

    /// Turns the drawing of widget bounds on or off; the Ui is then redrawn.
    pub fn set_debug_draw_bounds(&mut self, debug_draw_bounds: bool)
        ensures
            final(self).drawing_bounds() == debug_draw_bounds,
            final(self).redraw_pending(),
            final(self).closing() == old(self).closing(),
            final(self).root() == old(self).root(),
            final(self).tree() == old(self).tree(),
    {
        proof {
            use_type_invariant(&*self);
        }
        self.debug_draw_bounds = debug_draw_bounds;
        self.redraw();
    }

    /// Whether the Ui is marked to be drawn again.
    pub fn needs_redraw(&self) -> (r: bool)
        ensures
            r == self.redraw_pending(),
    {
        self.needs_redraw
    }

    /// Marks the Ui to be drawn again.
    pub fn redraw(&mut self)
        ensures
            final(self).redraw_pending(),
            final(self).closing() == old(self).closing(),
            final(self).drawing_bounds() == old(self).drawing_bounds(),
            final(self).root() == old(self).root(),
            final(self).tree() == old(self).tree(),
    {
        proof {
            use_type_invariant(&*self);
        }
        self.needs_redraw = true;
    }

    /// Whether to draw now: the Ui is drawn when it was marked, and is then no longer marked.
    pub fn draw_if_needed(&mut self) -> (draw: bool)
        ensures
            draw == old(self).redraw_pending(),
            !final(self).redraw_pending(),
            final(self).closing() == old(self).closing(),
            final(self).drawing_bounds() == old(self).drawing_bounds(),
            final(self).root() == old(self).root(),
            final(self).tree() == old(self).tree(),
    {
        proof {
            use_type_invariant(&*self);
        }
        let draw = self.needs_redraw;
        self.needs_redraw = false;
        draw
    }

    /// Records whether the widget that just handled an event changed its
    /// appearance; if it did, the Ui is redrawn.
    pub fn widget_updated(&mut self, updated: bool)
        ensures
            final(self).redraw_pending() == (old(self).redraw_pending() || updated),
            final(self).closing() == old(self).closing(),
            final(self).drawing_bounds() == old(self).drawing_bounds(),
            final(self).root() == old(self).root(),
            final(self).tree() == old(self).tree(),
    {
        proof {
            use_type_invariant(&*self);
        }
        if updated {
            self.needs_redraw = true;
        }
    }

    /// The widgets an event sent to `address` is delivered to first, in order:
    /// the widget itself, every widget of its subtree (parents before children),
    /// the widget where bubbling starts, or none for the Ui.
    pub fn event_targets(&self, address: Target) -> (ws: Vec<WidgetId>)
        ensures
            ws@ == match address {
                Target::Widget(w) => seq![w],
                Target::SubTree(w) => self.tree().subtree(w),
                Target::BubbleUp(w) => seq![w],
                Target::Ui => Seq::<WidgetId>::empty(),
            },
    {
        proof {
            use_type_invariant(self);
        }
        match address {
            Target::Widget(w) => {
                let mut v = Vec::new();
                v.push(w);
                assert(v@ =~= seq![w]);
                v
            },
            Target::SubTree(w) => self.tree.subtree_widgets(w),
            Target::BubbleUp(w) => {
                let mut v = Vec::new();
                v.push(w);
                assert(v@ =~= seq![w]);
                v
            },
            Target::Ui => Vec::new(),
        }
    }

    /// Where a bubbling event goes after `w`: nowhere once a handler of `w`
    /// marked it handled, else to the parent of `w`, if any.
    pub fn bubble_next(&self, w: WidgetId, handled: bool) -> (next: Option<WidgetId>)
        ensures
            handled ==> next is None,
            !handled ==> next == (if self.tree().parents().contains_key(w.0) {
                Some(self.tree().parents()[w.0])
            } else {
                None
            }),
    {
        if handled {
            None
        } else {
            self.tree.parent(w)
        }
    }

    /// A breadth first walk of all the widgets, from the root.
    pub fn bfs(&self) -> (b: Bfs)
        ensures
            b@ == seq![self.root()],
    {
        Bfs::new(self.root)
    }

    /// The widgets under the cursor, topmost first: a walk over all the widgets
    /// in the reverse of the order they are drawn in.
    pub fn widgets_under_cursor(&self) -> (c: CursorWidgetWalker)
        ensures
            c.walks(self.tree()),
            c.remaining(self.tree()) == self.tree().subtree(self.root()).reverse(),
    {
        proof {
            use_type_invariant(self);
        }
        CursorWidgetWalker::new(&self.tree, self.root)
    }

    /// The topmost widget that `is_over` says is under the cursor, if any.
    pub fn widget_under_cursor<F: Fn(WidgetId) -> bool>(&self, is_over: F) -> (w: Option<WidgetId>)
        requires
            forall|x: WidgetId| call_requires(is_over, (x,)),
        ensures
            ({
                let order = self.tree().subtree(self.root()).reverse();
                match w {
                    Some(found) => exists|k: int|
                        0 <= k < order.len() && order[k] == found && call_ensures(is_over, (found,), true) && (
                        forall|j: int| 0 <= j < k ==> call_ensures(is_over, (#[trigger] order[j],), false)),
                    None => forall|j: int| 0 <= j < order.len() ==> call_ensures(is_over, (#[trigger] order[j],), false),
                }
            }),
    {
        proof {
            use_type_invariant(self);
        }
        let mut walker = self.widgets_under_cursor();
        walker.next(&self.tree, is_over)
    }

    /// Delivers an event to the widgets `address` names, calling `handle` for
    /// each, which says whether the widget handled the event and whether its
    /// appearance changed: the widget itself; every widget of its subtree,
    /// parents before children; or the widget and then its ancestors in turn
    /// until one handles the event. The Ui is redrawn if a widget changed.
    /// Gives each delivery: the widget and what `handle` returned for it.
    pub fn handle_event<F: Fn(WidgetId) -> (bool, bool)>(&mut self, address: Target, handle: F) -> (deliveries: Vec<
        (WidgetId, bool, bool),
    >)
        requires
            forall|w: WidgetId| call_requires(handle, (w,)),
        ensures
            forall|i: int|
                0 <= i < deliveries@.len() ==> call_ensures(
                    handle,
                    ((#[trigger] deliveries@[i]).0,),
                    (deliveries@[i].1, deliveries@[i].2),
                ),
            match address {
                Target::Widget(w) => delivered_to(deliveries@) == seq![w],
                Target::SubTree(w) => delivered_to(deliveries@) == old(self).tree().subtree(w),
                Target::BubbleUp(w) => bubble_chain(old(self).tree().parents(), w, deliveries@),
                Target::Ui => deliveries@.len() == 0,
            },
            final(self).redraw_pending() == (old(self).redraw_pending() || exists|i: int|
                0 <= i < deliveries@.len() && (#[trigger] deliveries@[i]).2),
            final(self).tree() == old(self).tree(),
            final(self).root() == old(self).root(),
            final(self).closing() == old(self).closing(),
            final(self).drawing_bounds() == old(self).drawing_bounds(),
    {
        proof {
            use_type_invariant(&*self);
        }
        let mut deliveries: Vec<(WidgetId, bool, bool)> = Vec::new();
        match address {
            Target::BubbleUp(w) => {
                let ghost parents = self.tree().parents();
                let mut current = w;
                loop
                    invariant_except_break
                        self.tree().wf(),
                        parents == self.tree().parents(),
                        self.tree() == old(self).tree(),
                        self.root() == old(self).root(),
                        self.closing() == old(self).closing(),
                        self.drawing_bounds() == old(self).drawing_bounds(),
                        forall|x: WidgetId| call_requires(handle, (x,)),
                        forall|i: int|
                            0 <= i < deliveries@.len() ==> call_ensures(
                                handle,
                                ((#[trigger] deliveries@[i]).0,),
                                (deliveries@[i].1, deliveries@[i].2),
                            ),
                        deliveries@.len() == 0 ==> current == w,
                        deliveries@.len() > 0 ==> bubble_prefix(parents, w, deliveries@, current),
                        self.redraw_pending() == (old(self).redraw_pending() || exists|i: int|
                            0 <= i < deliveries@.len() && (#[trigger] deliveries@[i]).2),
                    ensures
                        bubble_chain(parents, w, deliveries@),
                        forall|i: int|
                            0 <= i < deliveries@.len() ==> call_ensures(
                                handle,
                                ((#[trigger] deliveries@[i]).0,),
                                (deliveries@[i].1, deliveries@[i].2),
                            ),
                        self.redraw_pending() == (old(self).redraw_pending() || exists|i: int|
                            0 <= i < deliveries@.len() && (#[trigger] deliveries@[i]).2),
                        self.tree() == old(self).tree(),
                        self.root() == old(self).root(),
                        self.closing() == old(self).closing(),
                        self.drawing_bounds() == old(self).drawing_bounds(),
                    decreases (if parents.contains_key(current.0) {
                        self.tree().age()[current.0] + 1
                    } else {
                        0
                    }),
                {
                    let (handled, updated) = handle(current);
                    let ghost before = deliveries@;
                    deliveries.push((current, handled, updated));
                    self.widget_updated(updated);
                    proof {
                        assert forall|i: int| 0 <= i < deliveries@.len() implies call_ensures(
                            handle,
                            ((#[trigger] deliveries@[i]).0,),
                            (deliveries@[i].1, deliveries@[i].2),
                        ) by {
                            if i < before.len() {
                                assert(deliveries@[i] == before[i]);
                            }
                        }
                        if updated {
                            assert(deliveries@[before.len() as int].2);
                        }
                        if old(self).redraw_pending() || exists|i: int| 0 <= i < before.len() && (#[trigger] before[i]).2 {
                            if !old(self).redraw_pending() {
                                let i = choose|i: int| 0 <= i < before.len() && (#[trigger] before[i]).2;
                                assert(deliveries@[i] == before[i]);
                            }
                        }
                        assert forall|i: int| 0 <= i < deliveries@.len() && (#[trigger] deliveries@[i]).2 implies (
                        old(self).redraw_pending() || exists|j: int| 0 <= j < before.len() && (#[trigger] before[j]).2)
                            || updated by {
                            if i < before.len() {
                                assert(deliveries@[i] == before[i]);
                            }
                        }
                    }
                    match self.bubble_next(current, handled) {
                        Some(parent) => {
                            proof {
                                assert(parents.contains_key(current.0));
                                assert(self.tree().age()[parent.0] < self.tree().age()[current.0]);
                                assert(bubble_prefix(parents, w, deliveries@, parent)) by {
                                    if before.len() > 0 {
                                        assert(deliveries@.drop_last() == before);
                                    }
                                    assert forall|i: int| 0 <= i < deliveries@.len() - 1 implies !(
                                    #[trigger] deliveries@[i]).1 && parents.contains_key(deliveries@[i].0.0)
                                        && deliveries@[i + 1].0 == parents[deliveries@[i].0.0] by {
                                        assert(deliveries@[i] == before[i]);
                                        if i + 1 < before.len() {
                                            assert(deliveries@[i + 1] == before[i + 1]);
                                        }
                                    }
                                }
                            }
                            current = parent;
                        },
                        None => {
                            proof {
                                assert forall|i: int| 0 <= i < deliveries@.len() - 1 implies !(
                                #[trigger] deliveries@[i]).1 && parents.contains_key(deliveries@[i].0.0)
                                    && deliveries@[i + 1].0 == parents[deliveries@[i].0.0] by {
                                    assert(deliveries@[i] == before[i]);
                                    if i + 1 < before.len() {
                                        assert(deliveries@[i + 1] == before[i + 1]);
                                    }
                                }
                            }
                            break;
                        },
                    }
                }
            },
            _ => {
                let targets = self.event_targets(address);
                let mut i: usize = 0;
                while i < targets.len()
                    invariant
                        self.tree().wf(),
                        self.tree() == old(self).tree(),
                        self.root() == old(self).root(),
                        self.closing() == old(self).closing(),
                        self.drawing_bounds() == old(self).drawing_bounds(),
                        forall|x: WidgetId| call_requires(handle, (x,)),
                        i <= targets@.len(),
                        deliveries@.len() == i,
                        forall|j: int| 0 <= j < i ==> (#[trigger] deliveries@[j]).0 == targets@[j],
                        forall|j: int|
                            0 <= j < deliveries@.len() ==> call_ensures(
                                handle,
                                ((#[trigger] deliveries@[j]).0,),
                                (deliveries@[j].1, deliveries@[j].2),
                            ),
                        self.redraw_pending() == (old(self).redraw_pending() || exists|j: int|
                            0 <= j < deliveries@.len() && (#[trigger] deliveries@[j]).2),
                    decreases targets@.len() - i,
                {
                    let w = targets[i];
                    let (handled, updated) = handle(w);
                    let ghost before = deliveries@;
                    deliveries.push((w, handled, updated));
                    self.widget_updated(updated);
                    proof {
                        assert forall|j: int| 0 <= j < deliveries@.len() implies call_ensures(
                            handle,
                            ((#[trigger] deliveries@[j]).0,),
                            (deliveries@[j].1, deliveries@[j].2),
                        ) by {
                            if j < before.len() {
                                assert(deliveries@[j] == before[j]);
                            }
                        }
                        assert forall|j: int| 0 <= j < i + 1 implies (#[trigger] deliveries@[j]).0 == targets@[j] by {
                            if j < before.len() {
                                assert(deliveries@[j] == before[j]);
                            }
                        }
                        if updated {
                            assert(deliveries@[before.len() as int].2);
                        }
                        if old(self).redraw_pending() || exists|j: int| 0 <= j < before.len() && (#[trigger] before[j]).2 {
                            if !old(self).redraw_pending() {
                                let j = choose|j: int| 0 <= j < before.len() && (#[trigger] before[j]).2;
                                assert(deliveries@[j] == before[j]);
                            }
                        }
                        assert forall|j: int| 0 <= j < deliveries@.len() && (#[trigger] deliveries@[j]).2 implies (
                        old(self).redraw_pending() || exists|k: int| 0 <= k < before.len() && (#[trigger] before[k]).2)
                            || updated by {
                            if j < before.len() {
                                assert(deliveries@[j] == before[j]);
                            }
                        }
                    }
                    i = i + 1;
                }
                proof {
                    assert(delivered_to(deliveries@) =~= targets@);
                }
            },
        }
        deliveries
    }
}

} // verus!
