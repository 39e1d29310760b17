//! How the Ui turns raw window input into events for its widgets.

use vstd::prelude::*;

use crate::resources::id::WidgetId;
use crate::ui::mouse::Hover;

verus! {

/// Raw window input, carrying the raw event `E`.
#[derive(Copy, Clone, Debug)]
pub enum RawInput<E> {
    MouseMoved(E),
    MouseWheel(E),
    MouseInput(E),
    Other,
}

/// Where the Ui sends an event.
#[derive(Copy, Clone, Debug, PartialEq, Eq, Structural)]
pub enum InputTarget {
    /// One widget.
    Widget(WidgetId),
    /// The widgets under the cursor.
    UnderMouse,
    /// Every widget of a subtree.
    SubTree(WidgetId),
}

/// An event the Ui sends for raw input.
#[derive(Copy, Clone, Debug)]
pub enum InputEvent<E> {
    Hover(Hover),
    WidgetMouseWheel(E),
    MouseWheel(E),
    WidgetMouseButton(E),
    MouseButton(E),
    MouseMoved(E),
}

/// The cursor position and the widgets it was last over.
pub struct InputState<P> {
    pub mouse: P,
    pub last_over: Vec<WidgetId>,
}

/// The widgets of `ws` whose `keep` flag is set, in order, and an `Out` event for
/// each of the others, in order.
pub open spec fn hover_outs<E>(ws: Seq<WidgetId>, keep: Seq<bool>) -> (Seq<WidgetId>, Seq<(InputTarget, InputEvent<E>)>)
    decreases ws.len(),
{
    if ws.len() == 0 {
        (Seq::empty(), Seq::empty())
    } else {
        let (kept, events) = hover_outs::<E>(ws.drop_last(), keep);
        let i = ws.len() - 1;
        if keep[i] {
            (kept.push(ws[i]), events)
        } else {
            (kept, events.push((InputTarget::Widget(ws[i]), InputEvent::Hover(Hover::Out))))
        }
    }
}

/// The events the Ui sends for `event` after the hover events, with `root` the root widget.
pub open spec fn input_dispatch<E>(event: RawInput<E>, root: WidgetId) -> Seq<(InputTarget, InputEvent<E>)> {
    match event {
        RawInput::MouseMoved(e) => seq![
            (InputTarget::UnderMouse, InputEvent::Hover(Hover::Over)),
            (InputTarget::SubTree(root), InputEvent::MouseMoved(e)),
        ],
        RawInput::MouseWheel(e) => seq![
            (InputTarget::UnderMouse, InputEvent::WidgetMouseWheel(e)),
            (InputTarget::SubTree(root), InputEvent::MouseWheel(e)),
        ],
        RawInput::MouseInput(e) => seq![
            (InputTarget::UnderMouse, InputEvent::WidgetMouseButton(e)),
            (InputTarget::SubTree(root), InputEvent::MouseButton(e)),
        ],
        RawInput::Other => Seq::empty(),
    }
}

impl<P: Copy> InputState<P> {
    pub fn new(origin: P) -> (s: Self)
        ensures
            s.mouse == origin,
            s.last_over@ == Seq::<WidgetId>::empty(),
    {
        InputState { mouse: origin, last_over: Vec::new() }
    }

    /// Handles raw input. On a cursor move to `position`, each widget the cursor
    /// was last over is told the cursor left it unless `keep` says it is still
    /// under the cursor (or no longer in the Ui), and it is forgotten; then the
    /// widgets under the cursor are told it is over them. Then the event goes to
    /// the widgets under the cursor and to every widget below `root`.
    pub fn handle_input<E: Copy>(
        &mut self,
        event: &RawInput<E>,
        position: P,
        keep: &Vec<bool>,
        root: WidgetId,
    ) -> (events: Vec<(InputTarget, InputEvent<E>)>)
        requires
            event is MouseMoved ==> keep@.len() == old(self).last_over@.len(),
        ensures
            event is MouseMoved ==> {
                let (kept, outs) = hover_outs::<E>(old(self).last_over@, keep@);
                &&& final(self).mouse == position
                &&& final(self).last_over@ == kept
                &&& events@ == outs + input_dispatch(*event, root)
            },
            !(event is MouseMoved) ==> {
                &&& final(self).mouse == old(self).mouse
                &&& final(self).last_over@ == old(self).last_over@
                &&& events@ == input_dispatch(*event, root)
            },
    {
        let mut events: Vec<(InputTarget, InputEvent<E>)> = Vec::new();
        match *event {
            RawInput::MouseMoved(e) => {
                self.mouse = position;
                let ghost ws = self.last_over@;
                let mut kept: Vec<WidgetId> = Vec::new();
                let mut i: usize = 0;
                while i < self.last_over.len()
                    invariant
                        self.last_over@ == ws,
                        keep@.len() == ws.len(),
                        i <= ws.len(),
                        (kept@, events@) == hover_outs::<E>(ws.subrange(0, i as int), keep@),
                    decreases ws.len() - i,
                {
                    let w = self.last_over[i];
                    proof {
                        assert(ws.subrange(0, i + 1).drop_last() =~= ws.subrange(0, i as int));
                    }
                    if keep[i] {
                        kept.push(w);
                    } else {
                        events.push((InputTarget::Widget(w), InputEvent::Hover(Hover::Out)));
                    }
                    i = i + 1;
                }
                proof {
                    assert(ws.subrange(0, ws.len() as int) =~= ws);
                }
                self.last_over = kept;
                let ghost outs = events@;
                events.push((InputTarget::UnderMouse, InputEvent::Hover(Hover::Over)));
                events.push((InputTarget::SubTree(root), InputEvent::MouseMoved(e)));
                assert(events@ =~= outs + input_dispatch(*event, root));
            },
            RawInput::MouseWheel(e) => {
                events.push((InputTarget::UnderMouse, InputEvent::WidgetMouseWheel(e)));
                events.push((InputTarget::SubTree(root), InputEvent::MouseWheel(e)));
                assert(events@ =~= input_dispatch(*event, root));
            },
            RawInput::MouseInput(e) => {
                events.push((InputTarget::UnderMouse, InputEvent::WidgetMouseButton(e)));
                events.push((InputTarget::SubTree(root), InputEvent::MouseButton(e)));
                assert(events@ =~= input_dispatch(*event, root));
            },
            RawInput::Other => {
                assert(events@ =~= input_dispatch(*event, root));
            },
        }
        events
    }
}

} // verus!
