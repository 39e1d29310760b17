pub mod keyboard;
pub mod mouse;

use vstd::prelude::*;

use crate::input::keyboard::{KeyboardInput, ReceivedCharacter, VirtualKeyCode};

verus! {

/// Whether a key or button was pressed or released.
#[derive(Copy, Clone, Debug, PartialEq, Eq, Structural)]
pub enum ElementState {
    Pressed,
    Released,
}

/// A mouse button.
#[derive(Copy, Clone, Debug, PartialEq, Eq, Structural)]
pub enum MouseButton {
    Left,
    Right,
    Middle,
    Other(u8),
}

} // verus!

verus! {

/// A window event, generic over the type of a cursor position `P` and of a
/// scroll amount `D`.
#[derive(Copy, Clone, Debug)]
pub enum WindowEvent<P, D> {
    Closed,
    Resized(u32, u32),
    MouseWheel(D),
    MouseInput(ElementState, MouseButton),
    MouseMoved(P),
    KeyboardInput(KeyboardInput),
    ReceivedCharacter(char),
    Other,
}

/// An input event for the root widget, made from a window event.
#[derive(Copy, Clone, Debug)]
pub enum RootInput<P, D> {
    MouseWheel(MouseWheel<D>),
    MouseButton(MouseButtonEvent),
    MouseMoved(MouseMoved<P>),
    KeyboardInput(KeyboardInput),
    ReceivedCharacter(ReceivedCharacter),
}

/// The cursor moved to a position.
#[derive(Copy, Clone, Debug)]
pub struct MouseMoved<P>(pub P);

/// The mouse wheel scrolled.
#[derive(Copy, Clone, Debug)]
pub struct MouseWheel<D>(pub D);

/// A mouse button was pressed or released.
#[derive(Copy, Clone, Debug, PartialEq, Eq, Structural)]
pub struct MouseButtonEvent(pub ElementState, pub MouseButton);

/// What the input handler does with a window event.
#[derive(Copy, Clone, Debug)]
pub enum InputAction<P, D> {
    /// Close the window.
    Close,
    /// Send an event to the root widget.
    Event(RootInput<P, D>),
    /// Nothing.
    Ignore,
}

/// How the input handler turns a window event into an action: a close request closes the
/// Ui, mouse and keyboard input become events for the root widget, and everything
/// else is ignored.
pub open spec fn spec_route_input<P, D>(event: WindowEvent<P, D>) -> InputAction<P, D> {
    match event {
        WindowEvent::Closed => InputAction::Close,
        WindowEvent::MouseWheel(delta) => InputAction::Event(RootInput::MouseWheel(MouseWheel(delta))),
        WindowEvent::MouseInput(state, button) => InputAction::Event(
            RootInput::MouseButton(MouseButtonEvent(state, button)),
        ),
        WindowEvent::MouseMoved(position) => InputAction::Event(RootInput::MouseMoved(MouseMoved(position))),
        WindowEvent::KeyboardInput(input) => InputAction::Event(RootInput::KeyboardInput(input)),
        WindowEvent::ReceivedCharacter(c) => InputAction::Event(
            RootInput::ReceivedCharacter(ReceivedCharacter(c)),
        ),
        WindowEvent::Resized(_, _) | WindowEvent::Other => InputAction::Ignore,
    }
}

/// Turns a window event into what the Ui does with it.
pub fn route_input<P, D>(event: WindowEvent<P, D>) -> (action: InputAction<P, D>)
    ensures
        action == spec_route_input(event),
{
    match event {
        WindowEvent::Closed => InputAction::Close,
        WindowEvent::MouseWheel(delta) => InputAction::Event(RootInput::MouseWheel(MouseWheel(delta))),
        WindowEvent::MouseInput(state, button) => InputAction::Event(
            RootInput::MouseButton(MouseButtonEvent(state, button)),
        ),
        WindowEvent::MouseMoved(position) => InputAction::Event(RootInput::MouseMoved(MouseMoved(position))),
        WindowEvent::KeyboardInput(input) => InputAction::Event(RootInput::KeyboardInput(input)),
        WindowEvent::ReceivedCharacter(c) => InputAction::Event(
            RootInput::ReceivedCharacter(ReceivedCharacter(c)),
        ),
        WindowEvent::Resized(_, _) | WindowEvent::Other => InputAction::Ignore,
    }
}

/// Closes the Ui when escape is pressed or released.
#[derive(Debug, Copy, Clone)]
pub struct EscKeyCloseHandler;

impl EscKeyCloseHandler {
    /// Whether the Ui should close on this keyboard input.
    pub fn handle(&mut self, event: &KeyboardInput) -> (close: bool)
        ensures
            close == (event.2 == Some(VirtualKeyCode::Escape)),
    {
        match event.2 {
            Some(VirtualKeyCode::Escape) => true,
            _ => false,
        }
    }
}

/// A debugging action of the Ui, chosen with a function key.
#[derive(Copy, Clone, Debug, PartialEq, Eq, Structural)]
pub enum DebugAction {
    /// Draw (or stop drawing) the bounds of every widget.
    SetDebugDrawBounds(bool),
    /// Print the layout constraints.
    DebugConstraints,
    /// Print the positions of the widgets.
    DebugWidgetPositions,
    /// Print the layout variables.
    DebugVariables,
    /// Toggle the renderer's profiler.
    ToggleProfiler,
}

/// Toggles debug drawing with F1 and prints debug information with F2 to F4; P
/// toggles the profiler. Keys act when released.
#[derive(Debug, Copy, Clone)]
pub struct DebugSettingsHandler {
    debug_on: bool,
}

impl DebugSettingsHandler {
    /// Whether widget bounds are being drawn.
    pub closed spec fn debug_on(&self) -> bool {
        self.debug_on
    }

    pub fn new() -> (h: Self)
        ensures
            !h.debug_on(),
    {
        DebugSettingsHandler { debug_on: false }
    }

    /// Handles a keyboard input, returning the debug action it asks for.
    pub fn handle(&mut self, event: &KeyboardInput) -> (action: Option<DebugAction>)
        ensures
            event.0 == ElementState::Released && event.2 == Some(VirtualKeyCode::F1) ==> {
                &&& final(self).debug_on() == !old(self).debug_on()
                &&& action == Some(DebugAction::SetDebugDrawBounds(!old(self).debug_on()))
            },
            !(event.0 == ElementState::Released && event.2 == Some(VirtualKeyCode::F1))
                ==> final(self).debug_on() == old(self).debug_on(),
            event.0 == ElementState::Pressed ==> action is None,
            event.0 == ElementState::Released ==> match event.2 {
                Some(VirtualKeyCode::F1) => true,
                Some(VirtualKeyCode::F2) => action == Some(DebugAction::DebugConstraints),
                Some(VirtualKeyCode::F3) => action == Some(DebugAction::DebugWidgetPositions),
                Some(VirtualKeyCode::F4) => action == Some(DebugAction::DebugVariables),
                Some(VirtualKeyCode::P) => action == Some(DebugAction::ToggleProfiler),
                _ => action is None,
            },
    {
        let KeyboardInput(state, _, key) = *event;
        if state == ElementState::Released {
            match key {
                Some(VirtualKeyCode::F1) => {
                    self.debug_on = !self.debug_on;
                    Some(DebugAction::SetDebugDrawBounds(self.debug_on))
                },
                Some(VirtualKeyCode::F2) => Some(DebugAction::DebugConstraints),
                Some(VirtualKeyCode::F3) => Some(DebugAction::DebugWidgetPositions),
                Some(VirtualKeyCode::F4) => Some(DebugAction::DebugVariables),
                Some(VirtualKeyCode::P) => Some(DebugAction::ToggleProfiler),
                _ => None,
            }
        } else {
            None
        }
    }
}

} // verus!

verus! {

/// Whether `event` is the release of F1, which toggles debug drawing.
pub open spec fn is_f1_release(event: KeyboardInput) -> bool {
    event.0 == ElementState::Released && event.2 == Some(VirtualKeyCode::F1)
}

/// How many of `events` release F1.
pub open spec fn f1_releases(events: Seq<KeyboardInput>) -> nat
    decreases events.len(),
{
    if events.len() == 0 {
        0
    } else {
        f1_releases(events.drop_last()) + if is_f1_release(events.last()) {
            1nat
        } else {
            0nat
        }
    }
}

/// Debug drawing follows the parity of F1 releases: a handler that starts with
/// it off and handles `events` in turn (`handlers[i + 1]` is `handlers[i]` after
/// `events[i]`) has it on exactly when F1 was released an odd number of times;
/// the `k`-th release asks to set it to whether `k` is odd.
pub proof fn law_debug_follows_f1_parity(
    handlers: Seq<DebugSettingsHandler>,
    events: Seq<KeyboardInput>,
    actions: Seq<Option<DebugAction>>,
)
    requires
        handlers.len() == events.len() + 1,
        actions.len() == events.len(),
        !handlers[0].debug_on(),
        forall|i: int|
            0 <= i < events.len() ==> (is_f1_release(#[trigger] events[i]) ==> handlers[i + 1].debug_on()
                == !handlers[i].debug_on() && actions[i] == Some(
                DebugAction::SetDebugDrawBounds(!handlers[i].debug_on()),
            )),
        forall|i: int|
            0 <= i < events.len() ==> (!is_f1_release(#[trigger] events[i]) ==> handlers[i + 1].debug_on()
                == handlers[i].debug_on()),
    ensures
        handlers.last().debug_on() == (f1_releases(events) % 2 == 1),
        forall|i: int|
            0 <= i < events.len() && is_f1_release(#[trigger] events[i]) ==> actions[i] == Some(
                DebugAction::SetDebugDrawBounds(f1_releases(events.take(i + 1)) % 2 == 1),
            ),
    decreases events.len(),
{
    if events.len() > 0 {
        let n = events.len() - 1;
        law_debug_follows_f1_parity(handlers.drop_last(), events.drop_last(), actions.drop_last());
        assert(handlers.drop_last().last() == handlers[n]);
        assert(events.drop_last().take(n) =~= events.drop_last());
        assert forall|i: int|
            0 <= i < events.len() && is_f1_release(#[trigger] events[i]) implies actions[i] == Some(
                DebugAction::SetDebugDrawBounds(f1_releases(events.take(i + 1)) % 2 == 1),
            ) by {
            if i < n {
                assert(events.drop_last()[i] == events[i]);
                assert(events.drop_last().take(i + 1) =~= events.take(i + 1));
                assert(actions.drop_last()[i] == actions[i]);
            } else {
                assert(events.take(i + 1) =~= events);
            }
        }
    }
}

/// Every mouse and keyboard window event reaches the root widget unchanged, a
/// close request closes the Ui, and only resizes and other events are ignored:
/// `route_input` of each kind of event gives exactly this.
pub proof fn law_input_reaches_root<P, D>(
    k: KeyboardInput,
    position: P,
    delta: D,
    state: ElementState,
    button: MouseButton,
    c: char,
    width: u32,
    height: u32,
)
    ensures
        spec_route_input::<P, D>(WindowEvent::KeyboardInput(k)) == InputAction::<P, D>::Event(
            RootInput::KeyboardInput(k),
        ),
        spec_route_input::<P, D>(WindowEvent::MouseMoved(position)) == InputAction::<P, D>::Event(
            RootInput::MouseMoved(MouseMoved(position)),
        ),
        spec_route_input::<P, D>(WindowEvent::MouseWheel(delta)) == InputAction::<P, D>::Event(
            RootInput::MouseWheel(MouseWheel(delta)),
        ),
        spec_route_input::<P, D>(WindowEvent::MouseInput(state, button)) == InputAction::<P, D>::Event(
            RootInput::MouseButton(MouseButtonEvent(state, button)),
        ),
        spec_route_input::<P, D>(WindowEvent::ReceivedCharacter(c)) == InputAction::<P, D>::Event(
            RootInput::ReceivedCharacter(ReceivedCharacter(c)),
        ),
        spec_route_input::<P, D>(WindowEvent::Closed) == InputAction::<P, D>::Close,
        spec_route_input::<P, D>(WindowEvent::Resized(width, height)) == InputAction::<P, D>::Ignore,
        spec_route_input::<P, D>(WindowEvent::Other) == InputAction::<P, D>::Ignore,
{
}

/// Routing never drops a mouse or keyboard event and never turns one into a
/// close: whatever `route_input` gives for an event is an event for the root
/// widget exactly when the window event is neither a close, a resize nor other.
pub proof fn law_input_events_forwarded<P, D>(event: WindowEvent<P, D>)
    ensures
        (spec_route_input(event) is Event) == !(event is Closed || event is Resized || event is Other),
        (spec_route_input(event) is Close) == (event is Closed),
{
}

} // verus!
