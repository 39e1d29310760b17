use vstd::prelude::*;

use crate::resources::id::WidgetId;
use crate::input::{ElementState, MouseButton};
use crate::property::{PropChange, Property};

verus! {

/// Input handled by the `MouseController`, generic over the type of a cursor
/// position `P` and of a scroll amount `D`.
#[derive(Copy, Clone, Debug)]
pub enum MouseInputEvent<P, D> {
    LayoutChanged,
    MouseMoved(P),
    MouseButton(ElementState, MouseButton),
    MouseWheel(D),
}

/// Sent to a widget when the left mouse button is released over it.
#[derive(Copy, Clone, Debug)]
pub struct ClickEvent<P> {
    pub position: P,
}

/// Sent to a widget when the cursor enters or leaves it.
#[derive(Copy, Clone, Debug, PartialEq, Eq, Structural)]
pub enum MouseOverEvent {
    Over,
    Out,
}

/// A mouse button pressed or released over a widget.
#[derive(Copy, Clone, Debug, PartialEq, Eq, Structural)]
pub struct WidgetMouseButton(pub ElementState, pub MouseButton);

/// A scroll of the mouse wheel over a widget.
#[derive(Copy, Clone, Debug)]
pub struct WidgetMouseWheel<D>(pub D);

/// An event that the `MouseController` sends to a widget, bubbling up to its ancestors.
#[derive(Copy, Clone, Debug)]
pub enum MouseAction<P, D> {
    MouseOver(WidgetId, MouseOverEvent),
    Button(WidgetId, WidgetMouseButton),
    Click(WidgetId, ClickEvent<P>),
    Wheel(WidgetId, WidgetMouseWheel<D>),
}

/// The events sent when the widget under the cursor changes from `old` to `new`:
/// `Out` to the old one, then `Over` to the new one; nothing when it stays the same.
pub open spec fn hover_change_actions<P, D>(old: Option<WidgetId>, new: Option<WidgetId>) -> Seq<
    MouseAction<P, D>,
> {
    if new == old {
        Seq::empty()
    } else {
        let out = match old {
            Some(w) => seq![MouseAction::MouseOver(w, MouseOverEvent::Out)],
            None => Seq::empty(),
        };
        let over = match new {
            Some(w) => seq![MouseAction::MouseOver(w, MouseOverEvent::Over)],
            None => Seq::empty(),
        };
        out + over
    }
}

/// Tracks the cursor position and the widget under it, and turns raw mouse
/// input into events for widgets.
#[derive(Copy, Clone, Debug)]
pub struct MouseController<P> {
    pub mouse: P,
    pub widget_under_mouse: Option<WidgetId>,
}

impl<P: Copy> MouseController<P> {
    /// Creates a new MouseController, with the cursor at `origin` and no widget under it.
    pub fn new(origin: P) -> (c: Self)
        ensures
            c.mouse == origin,
            c.widget_under_mouse is None,
    {
        MouseController { mouse: origin, widget_under_mouse: None }
    }

    /// Records `widget_under_cursor`, the widget found under the cursor, and returns
    /// the hover events for the change.
    pub fn check_widget_under_cursor<D>(
        &mut self,
        widget_under_cursor: Option<WidgetId>,
        actions: &mut Vec<MouseAction<P, D>>,
    )
        ensures
            final(self).mouse == old(self).mouse,
            final(self).widget_under_mouse == widget_under_cursor,
            final(actions)@ == old(actions)@ + hover_change_actions::<P, D>(
                old(self).widget_under_mouse,
                widget_under_cursor,
            ),
    {
        if widget_under_cursor != self.widget_under_mouse {
            if let Some(old_widget) = self.widget_under_mouse {
                actions.push(MouseAction::MouseOver(old_widget, MouseOverEvent::Out));
            }
            if let Some(new_widget) = widget_under_cursor {
                actions.push(MouseAction::MouseOver(new_widget, MouseOverEvent::Over));
            }
        }
        self.widget_under_mouse = widget_under_cursor;
        proof {
            assert(final(actions)@ =~= old(actions)@ + hover_change_actions::<P, D>(
                old(self).widget_under_mouse,
                widget_under_cursor,
            ));
        }
    }

    /// The cursor position after `event`.
    pub open spec fn mouse_after<D>(self, event: MouseInputEvent<P, D>) -> P {
        match event {
            MouseInputEvent::MouseMoved(p) => p,
            _ => self.mouse,
        }
    }

    /// The controller and the events that `handle` gives for `event`, where
    /// `under` is the widget found under the cursor position after the event.
    pub open spec fn handle_ensures<D>(
        old_c: Self,
        new_c: Self,
        event: MouseInputEvent<P, D>,
        under: Option<WidgetId>,
        actions: Seq<MouseAction<P, D>>,
    ) -> bool {
        &&& new_c.mouse == old_c.mouse_after(event)
        &&& match event {
            MouseInputEvent::LayoutChanged | MouseInputEvent::MouseMoved(_) => {
                &&& new_c.widget_under_mouse == under
                &&& actions == hover_change_actions::<P, D>(old_c.widget_under_mouse, under)
            },
            MouseInputEvent::MouseButton(state, button) => {
                &&& new_c.widget_under_mouse == old_c.widget_under_mouse
                &&& actions == match old_c.widget_under_mouse {
                    Some(w) => {
                        let pressed = seq![
                            MouseAction::<P, D>::Button(w, WidgetMouseButton(state, button)),
                        ];
                        if state == ElementState::Released && button == MouseButton::Left {
                            pressed.push(MouseAction::Click(w, ClickEvent { position: old_c.mouse }))
                        } else {
                            pressed
                        }
                    },
                    None => Seq::empty(),
                }
            },
            MouseInputEvent::MouseWheel(delta) => {
                &&& new_c.widget_under_mouse == old_c.widget_under_mouse
                &&& actions == match old_c.widget_under_mouse {
                    Some(w) => seq![MouseAction::Wheel(w, WidgetMouseWheel(delta))],
                    None => Seq::<MouseAction<P, D>>::empty(),
                }
            },
        }
    }

    /// Handles one mouse event. `widget_under_cursor` is the widget under the cursor
    /// position after the event (`mouse_after`); it is only read for layout changes
    /// and cursor moves.
    pub fn handle<D: Copy>(
        &mut self,
        event: &MouseInputEvent<P, D>,
        widget_under_cursor: Option<WidgetId>,
    ) -> (actions: Vec<MouseAction<P, D>>)
        ensures
            Self::handle_ensures(*old(self), *final(self), *event, widget_under_cursor, actions@),
    {
        let mut actions: Vec<MouseAction<P, D>> = Vec::new();
        match *event {
            MouseInputEvent::LayoutChanged => {
                self.check_widget_under_cursor(widget_under_cursor, &mut actions);
            },
            MouseInputEvent::MouseMoved(mouse) => {
                self.mouse = mouse;
                self.check_widget_under_cursor(widget_under_cursor, &mut actions);
            },
            MouseInputEvent::MouseButton(state, button) => {
                if let Some(widget_under) = self.widget_under_mouse {
                    actions.push(MouseAction::Button(widget_under, WidgetMouseButton(state, button)));
                    if state == ElementState::Released && button == MouseButton::Left {
                        let event = ClickEvent { position: self.mouse };
                        actions.push(MouseAction::Click(widget_under, event));
                    }
                }
            },
            MouseInputEvent::MouseWheel(mouse_scroll_delta) => {
                if let Some(widget_under) = self.widget_under_mouse {
                    actions.push(MouseAction::Wheel(widget_under, WidgetMouseWheel(mouse_scroll_delta)));
                }
            },
        }
        proof {
            assert(actions@ =~= Seq::empty() + actions@);
        }
        actions
    }
}

/// The property change that hovering applies to a widget: `MouseOver` is added
/// when the cursor enters the widget and removed when it leaves.
pub fn hover_prop_change(event: MouseOverEvent) -> (change: PropChange)
    ensures
        change == match event {
            MouseOverEvent::Over => PropChange::Add(Property::MouseOver),
            MouseOverEvent::Out => PropChange::Remove(Property::MouseOver),
        },
{
    match event {
        MouseOverEvent::Over => PropChange::Add(Property::MouseOver),
        MouseOverEvent::Out => PropChange::Remove(Property::MouseOver),
    }
}

} // verus!
