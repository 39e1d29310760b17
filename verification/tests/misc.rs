use limn::app::{frame_step, should_wait_for_events, FRAME_LENGTH_NS};
use limn::color::Color;
use limn::input::keyboard::{KeyboardInput, ReceivedCharacter, VirtualKeyCode};
use limn::input::{
    route_input, DebugAction, DebugSettingsHandler, ElementState, EscKeyCloseHandler, InputAction,
    MouseButton, MouseButtonEvent, RootInput, WindowEvent,
};
use limn::text::{lines, Wrap};

#[test]
fn frame_timing_keeps_pace_and_catches_up() {
    assert_eq!(frame_step(100, 200), (false, 200));
    assert_eq!(frame_step(200, 200), (false, 200));
    assert_eq!(frame_step(201, 200), (true, 201 + FRAME_LENGTH_NS));
    let late = 200 + 3 * FRAME_LENGTH_NS;
    assert_eq!(frame_step(late, 200), (true, 200 + FRAME_LENGTH_NS));
    assert!(should_wait_for_events(false, false));
    assert!(!should_wait_for_events(true, false));
    assert!(!should_wait_for_events(false, true));
}

#[test]
fn color_channels() {
    assert_eq!(Color(0x6060D0FF).channels(), (0x60, 0x60, 0xD0, 0xFF));
    assert_eq!(Color(0x00000000).channels(), (0, 0, 0, 0));
    assert_eq!(Color(0x12345678).channels(), (0x12, 0x34, 0x56, 0x78));
}

fn released(key: VirtualKeyCode) -> KeyboardInput {
    KeyboardInput(ElementState::Released, 0, Some(key))
}

#[test]
fn debug_settings_toggle_on_release() {
    let mut h = DebugSettingsHandler::new();
    assert_eq!(h.handle(&KeyboardInput(ElementState::Pressed, 0, Some(VirtualKeyCode::F1))), None);
    assert_eq!(h.handle(&released(VirtualKeyCode::F1)), Some(DebugAction::SetDebugDrawBounds(true)));
    assert_eq!(h.handle(&released(VirtualKeyCode::F1)), Some(DebugAction::SetDebugDrawBounds(false)));
    assert_eq!(h.handle(&released(VirtualKeyCode::F2)), Some(DebugAction::DebugConstraints));
    assert_eq!(h.handle(&released(VirtualKeyCode::F3)), Some(DebugAction::DebugWidgetPositions));
    assert_eq!(h.handle(&released(VirtualKeyCode::F4)), Some(DebugAction::DebugVariables));
    assert_eq!(h.handle(&released(VirtualKeyCode::P)), Some(DebugAction::ToggleProfiler));
    assert_eq!(h.handle(&released(VirtualKeyCode::Other(3))), None);
    assert_eq!(h.handle(&KeyboardInput(ElementState::Released, 0, None)), None);
}

#[test]
fn escape_closes() {
    let mut h = EscKeyCloseHandler;
    assert!(h.handle(&released(VirtualKeyCode::Escape)));
    assert!(h.handle(&KeyboardInput(ElementState::Pressed, 1, Some(VirtualKeyCode::Escape))));
    assert!(!h.handle(&released(VirtualKeyCode::F1)));
}

#[test]
fn window_events_route_to_root_widget() {
    type E = WindowEvent<(f32, f32), f32>;
    assert!(matches!(route_input(E::Closed), InputAction::Close));
    assert!(matches!(route_input(E::Resized(1, 2)), InputAction::Ignore));
    assert!(matches!(route_input(E::Other), InputAction::Ignore));
    match route_input(E::MouseMoved((1.5, 2.5))) {
        InputAction::Event(RootInput::MouseMoved(m)) => assert_eq!(m.0, (1.5, 2.5)),
        _ => panic!("expected a cursor move"),
    }
    match route_input(E::MouseInput(ElementState::Pressed, MouseButton::Middle)) {
        InputAction::Event(RootInput::MouseButton(b)) => {
            assert_eq!(b, MouseButtonEvent(ElementState::Pressed, MouseButton::Middle))
        }
        _ => panic!("expected a button"),
    }
    match route_input(E::ReceivedCharacter('x')) {
        InputAction::Event(RootInput::ReceivedCharacter(c)) => assert_eq!(c, ReceivedCharacter('x')),
        _ => panic!("expected a character"),
    }
    match route_input(E::MouseWheel(0.5)) {
        InputAction::Event(RootInput::MouseWheel(w)) => assert_eq!(w.0, 0.5),
        _ => panic!("expected a wheel event"),
    }
}

#[test]
fn lines_yield_each_range() {
    let text = "héllo\nworld";
    let mut l = lines(text, vec![0..6, 7..12, 6..6]);
    assert_eq!(l.next(), Some("héllo"));
    assert_eq!(l.next(), Some("world"));
    assert_eq!(l.next(), Some(""));
    assert_eq!(l.next(), None);
    assert_eq!(Wrap::Whitespace, Wrap::Whitespace);
    assert_ne!(Wrap::NoWrap, Wrap::Character);
}

#[test]
fn debug_drawing_follows_the_parity_of_f1_releases() {
    let mut h = DebugSettingsHandler::new();
    for k in 1..=5u32 {
        assert_eq!(h.handle(&KeyboardInput(ElementState::Pressed, 0, Some(VirtualKeyCode::F1))), None);
        assert_eq!(h.handle(&released(VirtualKeyCode::F2)), Some(DebugAction::DebugConstraints));
        assert_eq!(h.handle(&released(VirtualKeyCode::F1)), Some(DebugAction::SetDebugDrawBounds(k % 2 == 1)));
    }
}
