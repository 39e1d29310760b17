use vstd::prelude::*;

use crate::input::keyboard::{KeyboardInput, WidgetKeyboardInput};
use crate::input::mouse::ClickEvent;
use crate::resources::id::WidgetId;

verus! {

/// Input handled by the Ui's `FocusHandler`.
#[derive(Copy, Clone, Debug, PartialEq, Eq, Structural)]
pub enum KeyboardInputEvent {
    FocusChange(Option<WidgetId>),
    KeyboardInput(KeyboardInput),
}

/// Remembers the focused widget and forwards keyboard input to it.
pub struct FocusHandler {
    focused: Option<WidgetId>,
}

impl FocusHandler {
    /// The focused widget, if any.
    pub closed spec fn focused(&self) -> Option<WidgetId> {
        self.focused
    }

    pub fn new() -> (h: Self)
        ensures
            h.focused() is None,
    {
        FocusHandler { focused: None }
    }

    /// Handles a focus change or keyboard input; returns the widget to forward
    /// keyboard input to, with the event, if any.
    pub fn handle(&mut self, event: &KeyboardInputEvent) -> (forward: Option<(WidgetId, WidgetKeyboardInput)>)
        ensures
            match *event {
                KeyboardInputEvent::FocusChange(new_focus) => {
                    &&& final(self).focused() == new_focus
                    &&& forward is None
                },
                KeyboardInputEvent::KeyboardInput(KeyboardInput(state, scan_code, key)) => {
                    &&& final(self).focused() == old(self).focused()
                    &&& forward == match old(self).focused() {
                        Some(w) => Some((w, WidgetKeyboardInput(state, scan_code, key))),
                        None => None,
                    }
                },
            },
    {
        match *event {
            KeyboardInputEvent::FocusChange(new_focus) => {
                self.focused = new_focus;
                None
            },
            KeyboardInputEvent::KeyboardInput(key_input) => {
                if let Some(focused) = self.focused {
                    let KeyboardInput(state, scan_code, maybe_keycode) = key_input;
                    Some((focused, WidgetKeyboardInput(state, scan_code, maybe_keycode)))
                } else {
                    None
                }
            },
        }
    }
}

/// Forwards keyboard input to the Ui's `FocusHandler`.
pub struct KeyboardForwarder;

impl KeyboardForwarder {
    pub fn handle(&mut self, event: &KeyboardInput) -> (e: KeyboardInputEvent)
        ensures
            e == KeyboardInputEvent::KeyboardInput(*event),
    {
        KeyboardInputEvent::KeyboardInput(*event)
    }
}

/// Focuses a widget when it is clicked.
pub struct WidgetFocusHandler;

impl WidgetFocusHandler {
    /// The focus change for a click on `widget_id`.
    pub fn handle<P>(&mut self, _event: &ClickEvent<P>, widget_id: WidgetId) -> (e: KeyboardInputEvent)
        ensures
            e == KeyboardInputEvent::FocusChange(Some(widget_id)),
    {
        KeyboardInputEvent::FocusChange(Some(widget_id))
    }
}

} // verus!
