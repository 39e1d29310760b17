//! Ui event handlers used to generate events typical to a mouse controlled Ui.

use vstd::prelude::*;

use crate::input::mouse::{ClickEvent, MouseInputEvent, WidgetMouseButton, WidgetMouseWheel};
use crate::input::{ElementState, MouseButton, MouseButtonEvent, MouseMoved, MouseWheel};
use crate::resources::id::WidgetId;

verus! {

/// Sent to a widget when the cursor enters or leaves it.
#[derive(Copy, Clone, Debug, PartialEq, Eq, Structural)]
pub enum Hover {
    Over,
    Out,
}

/// An event the `MouseController` sends to one widget.
#[derive(Copy, Clone, Debug)]
pub enum WidgetMouseEvent<P, D> {
    Hover(Hover),
    Button(WidgetMouseButton),
    Click(ClickEvent<P>),
    Wheel(WidgetMouseWheel<D>),
}

/// What the `MouseController` asks of the Ui.
#[derive(Copy, Clone, Debug)]
pub enum MouseAction<P, D> {
    /// Send an event to a widget.
    Widget(WidgetId, WidgetMouseEvent<P, D>),
    /// Post a new cursor move to the current position, in case the widget
    /// under the cursor has shifted.
    MouseMoved(P),
}

/// The widgets of `ws` whose `keep` flag is set, in order, and an `Out` event for
/// each of the others, in order.
pub open spec fn retain_over<P, D>(ws: Seq<WidgetId>, keep: Seq<bool>) -> (Seq<WidgetId>, Seq<
    MouseAction<P, D>,
>)
    decreases ws.len(),
{
    if ws.len() == 0 {
        (Seq::empty(), Seq::empty())
    } else {
        let (kept, actions) = retain_over::<P, D>(ws.drop_last(), keep);
        let i = ws.len() - 1;
        if keep[i] {
            (kept.push(ws[i]), actions)
        } else {
            (kept, actions.push(MouseAction::Widget(ws[i], WidgetMouseEvent::Hover(Hover::Out))))
        }
    }
}

/// `over` extended with each widget of `under` that it does not hold yet, in
/// order, and an `Over` event for each widget added.
pub open spec fn add_over<P, D>(over: Seq<WidgetId>, under: Seq<WidgetId>) -> (Seq<WidgetId>, Seq<
    MouseAction<P, D>,
>)
    decreases under.len(),
{
    if under.len() == 0 {
        (over, Seq::empty())
    } else {
        let (list, actions) = add_over::<P, D>(over, under.drop_last());
        let u = under.last();
        if list.contains(u) {
            (list, actions)
        } else {
            (list.push(u), actions.push(MouseAction::Widget(u, WidgetMouseEvent::Hover(Hover::Over))))
        }
    }
}

/// An event for each widget of `ws`, in order: the button event, followed by a
/// click at `mouse` when the left button was released.
pub open spec fn button_actions<P, D>(
    ws: Seq<WidgetId>,
    state: ElementState,
    button: MouseButton,
    mouse: P,
) -> Seq<MouseAction<P, D>>
    decreases ws.len(),
{
    if ws.len() == 0 {
        Seq::empty()
    } else {
        let w = ws.last();
        let pressed = button_actions::<P, D>(ws.drop_last(), state, button, mouse).push(
            MouseAction::Widget(w, WidgetMouseEvent::Button(WidgetMouseButton(state, button))),
        );
        if state == ElementState::Released && button == MouseButton::Left {
            pressed.push(MouseAction::Widget(w, WidgetMouseEvent::Click(ClickEvent { position: mouse })))
        } else {
            pressed
        }
    }
}

/// A wheel event for each widget of `ws`, in order.
pub open spec fn wheel_actions<P, D>(ws: Seq<WidgetId>, delta: D) -> Seq<MouseAction<P, D>>
    decreases ws.len(),
{
    if ws.len() == 0 {
        Seq::empty()
    } else {
        wheel_actions::<P, D>(ws.drop_last(), delta).push(
            MouseAction::Widget(ws.last(), WidgetMouseEvent::Wheel(WidgetMouseWheel(delta))),
        )
    }
}

fn contains_widget(ws: &Vec<WidgetId>, w: WidgetId) -> (r: bool)
    ensures
        r == ws@.contains(w),
{
    let mut i: usize = 0;
    while i < ws.len()
        invariant
            i <= ws@.len(),
            forall|j: int| 0 <= j < i ==> ws@[j] != w,
        decreases ws@.len() - i,
    {
        if ws[i] == w {
            assert(ws@[i as int] == w);
            return true;
        }
        i = i + 1;
    }
    false
}

/// Tracks the cursor and the widgets under it, in the order the cursor entered them.
pub struct MouseController<P> {
    pub mouse: P,
    pub widgets_over: Vec<WidgetId>,
}

impl<P: Copy> MouseController<P> {
    /// Creates a controller with the cursor at `origin` and no widget under it.
    pub fn new(origin: P) -> (c: Self)
        ensures
            c.mouse == origin,
            c.widgets_over@ == Seq::<WidgetId>::empty(),
    {
        MouseController { mouse: origin, widgets_over: Vec::new() }
    }

    /// The controller and the events that `handle` gives for `event`. For a cursor
    /// move, `keep[i]` tells whether the i-th widget the cursor was over is still
    /// under it (or no longer exists), and `under` lists the widgets under the new
    /// position, deepest first.
    pub open spec fn handle_ensures<D>(
        old_c: Self,
        new_c: Self,
        event: MouseInputEvent<P, D>,
        keep: Seq<bool>,
        under: Seq<WidgetId>,
        actions: Seq<MouseAction<P, D>>,
    ) -> bool {
        match event {
            MouseInputEvent::LayoutChanged => {
                &&& new_c.mouse == old_c.mouse
                &&& new_c.widgets_over@ == old_c.widgets_over@
                &&& actions == seq![MouseAction::<P, D>::MouseMoved(old_c.mouse)]
            },
            MouseInputEvent::MouseMoved(p) => {
                let (kept, outs) = retain_over::<P, D>(old_c.widgets_over@, keep);
                let (over, overs) = add_over::<P, D>(kept, under);
                &&& new_c.mouse == p
                &&& new_c.widgets_over@ == over
                &&& actions == outs + overs
            },
            MouseInputEvent::MouseButton(state, button) => {
                &&& new_c.mouse == old_c.mouse
                &&& new_c.widgets_over@ == old_c.widgets_over@
                &&& actions == button_actions::<P, D>(old_c.widgets_over@, state, button, old_c.mouse)
            },
            MouseInputEvent::MouseWheel(delta) => {
                &&& new_c.mouse == old_c.mouse
                &&& new_c.widgets_over@ == old_c.widgets_over@
                &&& actions == wheel_actions::<P, D>(old_c.widgets_over@, delta)
            },
        }
    }

    /// Handles one mouse event.
    pub fn handle<D: Copy>(
        &mut self,
        event: &MouseInputEvent<P, D>,
        keep: &Vec<bool>,
        under: &Vec<WidgetId>,
    ) -> (actions: Vec<MouseAction<P, D>>)
        requires
            event is MouseMoved ==> keep@.len() == old(self).widgets_over@.len(),
        ensures
            Self::handle_ensures(*old(self), *final(self), *event, keep@, under@, actions@),
    {
        let mut actions: Vec<MouseAction<P, D>> = Vec::new();
        match *event {
            MouseInputEvent::LayoutChanged => {
                actions.push(MouseAction::MouseMoved(self.mouse));
            },
            MouseInputEvent::MouseMoved(mouse) => {
                self.mouse = mouse;
                let ghost ws = self.widgets_over@;
                let mut kept: Vec<WidgetId> = Vec::new();
                let mut i: usize = 0;
                while i < self.widgets_over.len()
                    invariant
                        self.widgets_over@ == ws,
                        keep@.len() == ws.len(),
                        i <= ws.len(),
                        (kept@, actions@) == retain_over::<P, D>(ws.subrange(0, i as int), keep@),
                    decreases ws.len() - i,
                {
                    let w = self.widgets_over[i];
                    proof {
                        assert(ws.subrange(0, i + 1).drop_last() =~= ws.subrange(0, i as int));
                    }
                    if keep[i] {
                        kept.push(w);
                    } else {
                        actions.push(MouseAction::Widget(w, WidgetMouseEvent::Hover(Hover::Out)));
                    }
                    i = i + 1;
                }
                proof {
                    assert(ws.subrange(0, ws.len() as int) =~= ws);
                }
                let ghost outs = actions@;
                let mut overs: Vec<MouseAction<P, D>> = Vec::new();
                let mut j: usize = 0;
                let ghost kept0 = kept@;
                while j < under.len()
                    invariant
                        j <= under@.len(),
                        (kept@, overs@) == add_over::<P, D>(kept0, under@.subrange(0, j as int)),
                    decreases under@.len() - j,
                {
                    let u = under[j];
                    proof {
                        assert(under@.subrange(0, j + 1).drop_last() =~= under@.subrange(0, j as int));
                    }
                    if !contains_widget(&kept, u) {
                        kept.push(u);
                        overs.push(MouseAction::Widget(u, WidgetMouseEvent::Hover(Hover::Over)));
                    }
                    j = j + 1;
                }
                proof {
                    assert(under@.subrange(0, under@.len() as int) =~= under@);
                }
                self.widgets_over = kept;
                actions.append(&mut overs);
            },
            MouseInputEvent::MouseButton(state, button) => {
                let ghost ws = self.widgets_over@;
                let mut i: usize = 0;
                while i < self.widgets_over.len()
                    invariant
                        self.widgets_over@ == ws,
                        i <= ws.len(),
                        actions@ == button_actions::<P, D>(ws.subrange(0, i as int), state, button, self.mouse),
                    decreases ws.len() - i,
                {
                    let w = self.widgets_over[i];
                    proof {
                        assert(ws.subrange(0, i + 1).drop_last() =~= ws.subrange(0, i as int));
                    }
                    actions.push(MouseAction::Widget(w, WidgetMouseEvent::Button(WidgetMouseButton(state, button))));
                    if state == ElementState::Released && button == MouseButton::Left {
                        actions.push(MouseAction::Widget(w, WidgetMouseEvent::Click(ClickEvent { position: self.mouse })));
                    }
                    i = i + 1;
                }
                proof {
                    assert(ws.subrange(0, ws.len() as int) =~= ws);
                }
            },
            MouseInputEvent::MouseWheel(delta) => {
                let ghost ws = self.widgets_over@;
                let mut i: usize = 0;
                while i < self.widgets_over.len()
                    invariant
                        self.widgets_over@ == ws,
                        i <= ws.len(),
                        actions@ == wheel_actions::<P, D>(ws.subrange(0, i as int), delta),
                    decreases ws.len() - i,
                {
                    let w = self.widgets_over[i];
                    proof {
                        assert(ws.subrange(0, i + 1).drop_last() =~= ws.subrange(0, i as int));
                    }
                    actions.push(MouseAction::Widget(w, WidgetMouseEvent::Wheel(WidgetMouseWheel(delta))));
                    i = i + 1;
                }
                proof {
                    assert(ws.subrange(0, ws.len() as int) =~= ws);
                }
            },
        }
        actions
    }
}

} // verus!

verus! {

/// Forwards a layout change to the `MouseController`.
pub struct MouseLayoutChangeHandler;

impl MouseLayoutChangeHandler {
    pub fn handle<P, D>(&mut self) -> (e: MouseInputEvent<P, D>)
        ensures
            e == MouseInputEvent::<P, D>::LayoutChanged,
    {
        MouseInputEvent::LayoutChanged
    }
}

/// Forwards a cursor move to the `MouseController`.
pub struct MouseMoveHandler;

impl MouseMoveHandler {
    pub fn handle<P: Copy, D>(&mut self, event: &MouseMoved<P>) -> (e: MouseInputEvent<P, D>)
        ensures
            e == MouseInputEvent::<P, D>::MouseMoved(event.0),
    {
        let MouseMoved(mouse) = *event;
        MouseInputEvent::MouseMoved(mouse)
    }
}

/// Forwards a mouse button press or release to the `MouseController`.
pub struct MouseButtonHandler;

impl MouseButtonHandler {
    pub fn handle<P, D>(&mut self, event: &MouseButtonEvent) -> (e: MouseInputEvent<P, D>)
        ensures
            e == MouseInputEvent::<P, D>::MouseButton(event.0, event.1),
    {
        let MouseButtonEvent(state, button) = *event;
        MouseInputEvent::MouseButton(state, button)
    }
}

/// Forwards a mouse wheel scroll to the `MouseController`.
pub struct MouseWheelHandler;

impl MouseWheelHandler {
    pub fn handle<P, D: Copy>(&mut self, event: &MouseWheel<D>) -> (e: MouseInputEvent<P, D>)
        ensures
            e == MouseInputEvent::<P, D>::MouseWheel(event.0),
    {
        let MouseWheel(scroll) = *event;
        MouseInputEvent::MouseWheel(scroll)
    }
}

} // verus!

verus! {

proof fn lemma_retain_over<P, D>(ws: Seq<WidgetId>, keep: Seq<bool>)
    ensures
        forall|x: WidgetId| #[trigger] retain_over::<P, D>(ws, keep).0.contains(x) ==> ws.contains(x),
        ws.no_duplicates() ==> retain_over::<P, D>(ws, keep).0.no_duplicates(),
    decreases ws.len(),
{
    if ws.len() > 0 {
        let prefix = ws.drop_last();
        lemma_retain_over::<P, D>(prefix, keep);
        let kept = retain_over::<P, D>(prefix, keep).0;
        let last = ws[ws.len() - 1];
        assert forall|x: WidgetId| #[trigger] retain_over::<P, D>(ws, keep).0.contains(x) implies ws.contains(x) by {
            if kept.contains(x) {
                let j = choose|j: int| 0 <= j < prefix.len() && prefix[j] == x;
                assert(ws[j] == x);
            } else {
                assert(ws[ws.len() - 1] == x);
            }
        }
        if ws.no_duplicates() {
            assert(prefix.no_duplicates());
            if kept.contains(last) {
                let j = choose|j: int| 0 <= j < prefix.len() && prefix[j] == last;
                assert(ws[j] == ws[ws.len() - 1]);
            }
        }
    }
}

proof fn lemma_add_over<P, D>(over: Seq<WidgetId>, under: Seq<WidgetId>)
    ensures
        over.no_duplicates() ==> add_over::<P, D>(over, under).0.no_duplicates(),
    decreases under.len(),
{
    if under.len() > 0 {
        lemma_add_over::<P, D>(over, under.drop_last());
    }
}

/// The cursor is over each widget at most once: a cursor move keeps the list of
/// widgets under the cursor free of duplicates.
pub proof fn law_widgets_over_distinct<P, D>(over: Seq<WidgetId>, keep: Seq<bool>, under: Seq<WidgetId>)
    requires
        over.no_duplicates(),
    ensures
        add_over::<P, D>(retain_over::<P, D>(over, keep).0, under).0.no_duplicates(),
{
    lemma_retain_over::<P, D>(over, keep);
    lemma_add_over::<P, D>(retain_over::<P, D>(over, keep).0, under);
}

/// Whatever event `handle` takes, a list of widgets under the cursor that is free
/// of duplicates stays free of them.
pub proof fn law_handle_keeps_widgets_over_distinct<P: Copy, D>(
    old_c: MouseController<P>,
    new_c: MouseController<P>,
    event: MouseInputEvent<P, D>,
    keep: Seq<bool>,
    under: Seq<WidgetId>,
    actions: Seq<MouseAction<P, D>>,
)
    requires
        old_c.widgets_over@.no_duplicates(),
        MouseController::<P>::handle_ensures(old_c, new_c, event, keep, under, actions),
    ensures
        new_c.widgets_over@.no_duplicates(),
{
    if event is MouseMoved {
        law_widgets_over_distinct::<P, D>(old_c.widgets_over@, keep, under);
    }
}

proof fn lemma_wheel_actions<P, D>(ws: Seq<WidgetId>, delta: D)
    ensures
        wheel_actions::<P, D>(ws, delta).len() == ws.len(),
        forall|i: int|
            0 <= i < ws.len() ==> #[trigger] wheel_actions::<P, D>(ws, delta)[i] == MouseAction::<P, D>::Widget(
                ws[i],
                WidgetMouseEvent::Wheel(WidgetMouseWheel(delta)),
            ),
    decreases ws.len(),
{
    if ws.len() > 0 {
        lemma_wheel_actions::<P, D>(ws.drop_last(), delta);
        assert forall|i: int| 0 <= i < ws.len() implies #[trigger] wheel_actions::<P, D>(ws, delta)[i]
            == MouseAction::<P, D>::Widget(ws[i], WidgetMouseEvent::Wheel(WidgetMouseWheel(delta))) by {
            if i < ws.len() - 1 {
                assert(ws.drop_last()[i] == ws[i]);
            }
        }
    }
}

proof fn lemma_button_actions<P, D>(ws: Seq<WidgetId>, state: ElementState, button: MouseButton, mouse: P)
    ensures
        ({
            let a = button_actions::<P, D>(ws, state, button, mouse);
            let click = state == ElementState::Released && button == MouseButton::Left;
            &&& !click ==> a.len() == ws.len()
            &&& !click ==> forall|i: int|
                0 <= i < ws.len() ==> #[trigger] a[i] == MouseAction::<P, D>::Widget(
                    ws[i],
                    WidgetMouseEvent::Button(WidgetMouseButton(state, button)),
                )
            &&& click ==> a.len() == 2 * ws.len()
            &&& click ==> forall|i: int|
                0 <= i < ws.len() ==> a[2 * i] == MouseAction::<P, D>::Widget(
                    #[trigger] ws[i],
                    WidgetMouseEvent::Button(WidgetMouseButton(state, button)),
                ) && a[2 * i + 1] == MouseAction::<P, D>::Widget(
                    ws[i],
                    WidgetMouseEvent::Click(ClickEvent { position: mouse }),
                )
        }),
    decreases ws.len(),
{
    if ws.len() > 0 {
        let rest = ws.drop_last();
        lemma_button_actions::<P, D>(rest, state, button, mouse);
        let a = button_actions::<P, D>(ws, state, button, mouse);
        let a0 = button_actions::<P, D>(rest, state, button, mouse);
        let click = state == ElementState::Released && button == MouseButton::Left;
        if click {
            assert forall|i: int| 0 <= i < ws.len() implies a[2 * i] == MouseAction::<P, D>::Widget(
                #[trigger] ws[i],
                WidgetMouseEvent::Button(WidgetMouseButton(state, button)),
            ) && a[2 * i + 1] == MouseAction::<P, D>::Widget(
                ws[i],
                WidgetMouseEvent::Click(ClickEvent { position: mouse }),
            ) by {
                if i < ws.len() - 1 {
                    assert(rest[i] == ws[i]);
                    assert(a[2 * i] == a0[2 * i]);
                    assert(a[2 * i + 1] == a0[2 * i + 1]);
                }
            }
        } else {
            assert forall|i: int| 0 <= i < ws.len() implies #[trigger] a[i] == MouseAction::<P, D>::Widget(
                ws[i],
                WidgetMouseEvent::Button(WidgetMouseButton(state, button)),
            ) by {
                if i < ws.len() - 1 {
                    assert(rest[i] == ws[i]);
                    assert(a[i] == a0[i]);
                }
            }
        }
    }
}

/// A scroll reaches each widget under the cursor once, in order: `handle` of a
/// wheel event gives one wheel event per widget the cursor is over, the `i`-th
/// to the `i`-th widget, and keeps the cursor and the widgets.
pub proof fn law_wheel_reaches_each_widget<P: Copy, D>(
    old_c: MouseController<P>,
    new_c: MouseController<P>,
    delta: D,
    keep: Seq<bool>,
    under: Seq<WidgetId>,
    actions: Seq<MouseAction<P, D>>,
)
    requires
        MouseController::<P>::handle_ensures(old_c, new_c, MouseInputEvent::MouseWheel(delta), keep, under, actions),
    ensures
        actions.len() == old_c.widgets_over@.len(),
        forall|i: int|
            0 <= i < actions.len() ==> #[trigger] actions[i] == MouseAction::<P, D>::Widget(
                old_c.widgets_over@[i],
                WidgetMouseEvent::Wheel(WidgetMouseWheel(delta)),
            ),
        new_c.widgets_over@ == old_c.widgets_over@,
        new_c.mouse == old_c.mouse,
{
    lemma_wheel_actions::<P, D>(old_c.widgets_over@, delta);
}

/// A button press or release reaches each widget under the cursor, in order:
/// `handle` gives each widget a button event, and when the left button is
/// released a click at the cursor right after it; nothing else.
pub proof fn law_button_reaches_each_widget<P: Copy, D>(
    old_c: MouseController<P>,
    new_c: MouseController<P>,
    state: ElementState,
    button: MouseButton,
    keep: Seq<bool>,
    under: Seq<WidgetId>,
    actions: Seq<MouseAction<P, D>>,
)
    requires
        MouseController::<P>::handle_ensures(
            old_c,
            new_c,
            MouseInputEvent::MouseButton(state, button),
            keep,
            under,
            actions,
        ),
    ensures
        ({
            let ws = old_c.widgets_over@;
            let click = state == ElementState::Released && button == MouseButton::Left;
            &&& !click ==> actions.len() == ws.len()
            &&& !click ==> forall|i: int|
                0 <= i < ws.len() ==> #[trigger] actions[i] == MouseAction::<P, D>::Widget(
                    ws[i],
                    WidgetMouseEvent::Button(WidgetMouseButton(state, button)),
                )
            &&& click ==> actions.len() == 2 * ws.len()
            &&& click ==> forall|i: int|
                0 <= i < ws.len() ==> actions[2 * i] == MouseAction::<P, D>::Widget(
                    #[trigger] ws[i],
                    WidgetMouseEvent::Button(WidgetMouseButton(state, button)),
                ) && actions[2 * i + 1] == MouseAction::<P, D>::Widget(
                    ws[i],
                    WidgetMouseEvent::Click(ClickEvent { position: old_c.mouse }),
                )
        }),
        new_c.widgets_over@ == old_c.widgets_over@,
        new_c.mouse == old_c.mouse,
{
    lemma_button_actions::<P, D>(old_c.widgets_over@, state, button, old_c.mouse);
}

/// The cursor stays over `w`: it is one of `ws` whose `keep` flag is set.
pub open spec fn kept_over(ws: Seq<WidgetId>, keep: Seq<bool>, w: WidgetId) -> bool {
    exists|i: int| 0 <= i < ws.len() && #[trigger] ws[i] == w && keep[i]
}

/// The cursor left `w`: it is one of `ws` whose `keep` flag is clear.
pub open spec fn left_over(ws: Seq<WidgetId>, keep: Seq<bool>, w: WidgetId) -> bool {
    exists|i: int| 0 <= i < ws.len() && #[trigger] ws[i] == w && !keep[i]
}

/// `a` is a hover event, `Over` or `Out` as `over` says, sent to some widget.
pub open spec fn is_hover<P, D>(a: MouseAction<P, D>, over: bool) -> bool {
    match a {
        MouseAction::Widget(_, WidgetMouseEvent::Hover(h)) => h == (if over {
            Hover::Over
        } else {
            Hover::Out
        }),
        _ => false,
    }
}

proof fn lemma_retain_members<P, D>(ws: Seq<WidgetId>, keep: Seq<bool>)
    ensures
        forall|w: WidgetId| #[trigger] retain_over::<P, D>(ws, keep).0.contains(w) == kept_over(ws, keep, w),
        forall|w: WidgetId|
            #[trigger] retain_over::<P, D>(ws, keep).1.contains(
                MouseAction::<P, D>::Widget(w, WidgetMouseEvent::Hover(Hover::Out)),
            ) == left_over(ws, keep, w),
        forall|j: int|
            0 <= j < retain_over::<P, D>(ws, keep).1.len() ==> is_hover(
                #[trigger] retain_over::<P, D>(ws, keep).1[j],
                false,
            ),
    decreases ws.len(),
{
    broadcast use vstd::seq_lib::group_seq_properties;

    if ws.len() > 0 {
        let n = ws.len() - 1;
        let prefix = ws.drop_last();
        lemma_retain_members::<P, D>(prefix, keep);
        let last = ws[n];
        assert forall|w: WidgetId| #[trigger] kept_over(ws, keep, w) == (kept_over(prefix, keep, w) || (last
            == w && keep[n])) by {
            if kept_over(ws, keep, w) {
                let i = choose|i: int| 0 <= i < ws.len() && #[trigger] ws[i] == w && keep[i];
                if i < n {
                    assert(prefix[i] == w);
                }
            }
            if kept_over(prefix, keep, w) {
                let i = choose|i: int| 0 <= i < prefix.len() && #[trigger] prefix[i] == w && keep[i];
                assert(ws[i] == w);
            }
        }
        assert forall|w: WidgetId| #[trigger] left_over(ws, keep, w) == (left_over(prefix, keep, w) || (last
            == w && !keep[n])) by {
            if left_over(ws, keep, w) {
                let i = choose|i: int| 0 <= i < ws.len() && #[trigger] ws[i] == w && !keep[i];
                if i < n {
                    assert(prefix[i] == w);
                }
            }
            if left_over(prefix, keep, w) {
                let i = choose|i: int| 0 <= i < prefix.len() && #[trigger] prefix[i] == w && !keep[i];
                assert(ws[i] == w);
            }
        }
        let (k0, a0) = retain_over::<P, D>(prefix, keep);
        if !keep[n] {
            let a = a0.push(MouseAction::<P, D>::Widget(last, WidgetMouseEvent::Hover(Hover::Out)));
            assert forall|j: int| 0 <= j < a.len() implies is_hover(#[trigger] a[j], false) by {
                if j < a0.len() {
                    assert(a[j] == a0[j]);
                }
            }
        }
    }
}

proof fn lemma_add_members<P, D>(over: Seq<WidgetId>, under: Seq<WidgetId>)
    ensures
        forall|w: WidgetId| #[trigger] add_over::<P, D>(over, under).0.contains(w) == (over.contains(w)
            || under.contains(w)),
        forall|w: WidgetId|
            #[trigger] add_over::<P, D>(over, under).1.contains(
                MouseAction::<P, D>::Widget(w, WidgetMouseEvent::Hover(Hover::Over)),
            ) == (under.contains(w) && !over.contains(w)),
        forall|j: int|
            0 <= j < add_over::<P, D>(over, under).1.len() ==> is_hover(
                #[trigger] add_over::<P, D>(over, under).1[j],
                true,
            ),
    decreases under.len(),
{
    broadcast use vstd::seq_lib::group_seq_properties;

    if under.len() > 0 {
        let rest = under.drop_last();
        let u = under.last();
        lemma_add_members::<P, D>(over, rest);
        assert forall|w: WidgetId| #[trigger] under.contains(w) == (rest.contains(w) || w == u) by {
            assert(under =~= rest.push(u));
        }
        let (l0, a0) = add_over::<P, D>(over, rest);
        if !l0.contains(u) {
            let a = a0.push(MouseAction::<P, D>::Widget(u, WidgetMouseEvent::Hover(Hover::Over)));
            assert forall|j: int| 0 <= j < a.len() implies is_hover(#[trigger] a[j], true) by {
                if j < a0.len() {
                    assert(a[j] == a0[j]);
                }
            }
        }
    }
}

/// When the cursor moves, the widgets it is over are those it stayed over
/// (`keep`) and those under it now; each widget it left gets `Out`, each widget
/// it newly entered gets `Over`, and nothing else is sent.
pub proof fn law_cursor_move_hover<P: Copy, D>(
    old_c: MouseController<P>,
    new_c: MouseController<P>,
    p: P,
    keep: Seq<bool>,
    under: Seq<WidgetId>,
    actions: Seq<MouseAction<P, D>>,
)
    requires
        MouseController::<P>::handle_ensures(old_c, new_c, MouseInputEvent::MouseMoved(p), keep, under, actions),
    ensures
        new_c.mouse == p,
        forall|w: WidgetId| #[trigger] new_c.widgets_over@.contains(w) == (kept_over(old_c.widgets_over@, keep, w)
            || under.contains(w)),
        forall|w: WidgetId|
            #[trigger] actions.contains(MouseAction::<P, D>::Widget(w, WidgetMouseEvent::Hover(Hover::Out)))
                == left_over(old_c.widgets_over@, keep, w),
        forall|w: WidgetId|
            #[trigger] actions.contains(MouseAction::<P, D>::Widget(w, WidgetMouseEvent::Hover(Hover::Over)))
                == (under.contains(w) && !kept_over(old_c.widgets_over@, keep, w)),
        forall|j: int| 0 <= j < actions.len() ==> is_hover(#[trigger] actions[j], true) || is_hover(actions[j], false),
{
    broadcast use vstd::seq_lib::group_seq_properties;

    let ws = old_c.widgets_over@;
    lemma_retain_members::<P, D>(ws, keep);
    let (kept, outs) = retain_over::<P, D>(ws, keep);
    lemma_add_members::<P, D>(kept, under);
    let (list, overs) = add_over::<P, D>(kept, under);
    assert(actions == outs + overs);
    assert forall|j: int| 0 <= j < actions.len() implies is_hover(#[trigger] actions[j], true) || is_hover(
        actions[j],
        false,
    ) by {
        if j < outs.len() {
            assert(actions[j] == outs[j]);
        } else {
            assert(actions[j] == overs[j - outs.len()]);
        }
    }
    assert forall|w: WidgetId| #[trigger] actions.contains(
        MouseAction::<P, D>::Widget(w, WidgetMouseEvent::Hover(Hover::Out)),
    ) == left_over(ws, keep, w) by {
        let a = MouseAction::<P, D>::Widget(w, WidgetMouseEvent::Hover(Hover::Out));
        if overs.contains(a) {
            let j = choose|j: int| 0 <= j < overs.len() && overs[j] == a;
            assert(is_hover(overs[j], true));
        }
    }
    assert forall|w: WidgetId| #[trigger] actions.contains(
        MouseAction::<P, D>::Widget(w, WidgetMouseEvent::Hover(Hover::Over)),
    ) == (under.contains(w) && !kept_over(ws, keep, w)) by {
        let a = MouseAction::<P, D>::Widget(w, WidgetMouseEvent::Hover(Hover::Over));
        if outs.contains(a) {
            let j = choose|j: int| 0 <= j < outs.len() && outs[j] == a;
            assert(is_hover(outs[j], false));
        }
    }
}

} // verus!
