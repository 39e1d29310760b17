use limn::input::keyboard::{
    FocusAction, FocusHandler, KeyboardInput, KeyboardInputEvent, ReceivedCharacter, VirtualKeyCode,
    WidgetKeyboardInput, WidgetReceivedCharacter,
};
use limn::input::ElementState;
use limn::property::{PropChange, Property};
use limn::resources::id::WidgetId;

fn focused(w: usize) -> FocusAction {
    FocusAction::PropChange(WidgetId(w), PropChange::Add(Property::Focused))
}

fn unfocused(w: usize) -> FocusAction {
    FocusAction::PropChange(WidgetId(w), PropChange::Remove(Property::Focused))
}

fn tab(h: &mut FocusHandler) -> Vec<FocusAction> {
    h.handle(&KeyboardInputEvent::ReceivedCharacter(ReceivedCharacter('\t')))
}

#[test]
fn first_focusable_gets_focus() {
    let mut h = FocusHandler::new();
    assert_eq!(h.handle(&KeyboardInputEvent::AddFocusable(WidgetId(5))), vec![focused(5)]);
    assert_eq!(h.handle(&KeyboardInputEvent::AddFocusable(WidgetId(6))), vec![]);
}

#[test]
fn tab_cycles_in_registration_order() {
    let mut h = FocusHandler::new();
    h.handle(&KeyboardInputEvent::AddFocusable(WidgetId(30)));
    h.handle(&KeyboardInputEvent::AddFocusable(WidgetId(10)));
    h.handle(&KeyboardInputEvent::AddFocusable(WidgetId(20)));
    assert_eq!(tab(&mut h), vec![unfocused(30), focused(10)]);
    assert_eq!(tab(&mut h), vec![unfocused(10), focused(20)]);
    assert_eq!(tab(&mut h), vec![unfocused(20), focused(30)]);
}

#[test]
fn tab_with_nothing_registered_does_nothing() {
    let mut h = FocusHandler::new();
    assert_eq!(tab(&mut h), vec![]);
}

#[test]
fn tab_from_nothing_focuses_first() {
    let mut h = FocusHandler::new();
    h.handle(&KeyboardInputEvent::AddFocusable(WidgetId(1)));
    h.handle(&KeyboardInputEvent::AddFocusable(WidgetId(2)));
    assert_eq!(h.handle(&KeyboardInputEvent::FocusChange(None)), vec![unfocused(1)]);
    assert_eq!(tab(&mut h), vec![focused(1)]);
}

#[test]
fn removing_focused_widget_clears_focus_and_skips_it() {
    let mut h = FocusHandler::new();
    h.handle(&KeyboardInputEvent::AddFocusable(WidgetId(1)));
    h.handle(&KeyboardInputEvent::AddFocusable(WidgetId(2)));
    h.handle(&KeyboardInputEvent::AddFocusable(WidgetId(3)));
    assert_eq!(h.handle(&KeyboardInputEvent::RemoveFocusable(WidgetId(1))), vec![unfocused(1)]);
    assert_eq!(tab(&mut h), vec![focused(2)]);
    assert_eq!(h.handle(&KeyboardInputEvent::RemoveFocusable(WidgetId(3))), vec![]);
    assert_eq!(tab(&mut h), vec![]);
}

#[test]
fn keyboard_input_goes_to_focused_widget() {
    let mut h = FocusHandler::new();
    let input = KeyboardInput(ElementState::Pressed, 42, Some(VirtualKeyCode::P));
    assert_eq!(h.handle(&KeyboardInputEvent::KeyboardInput(input)), vec![]);
    h.handle(&KeyboardInputEvent::FocusChange(Some(WidgetId(7))));
    assert_eq!(
        h.handle(&KeyboardInputEvent::KeyboardInput(input)),
        vec![FocusAction::KeyboardInput(
            WidgetId(7),
            WidgetKeyboardInput(ElementState::Pressed, 42, Some(VirtualKeyCode::P))
        )]
    );
    assert_eq!(
        h.handle(&KeyboardInputEvent::ReceivedCharacter(ReceivedCharacter('a'))),
        vec![FocusAction::ReceivedCharacter(WidgetId(7), WidgetReceivedCharacter('a'))]
    );
}

#[test]
fn focus_change_to_same_widget_sends_nothing() {
    let mut h = FocusHandler::new();
    h.handle(&KeyboardInputEvent::FocusChange(Some(WidgetId(4))));
    assert_eq!(h.handle(&KeyboardInputEvent::FocusChange(Some(WidgetId(4)))), vec![]);
}

#[test]
fn tab_follows_registration_order_over_adds_and_removes() {
    let mut h = FocusHandler::new();
    h.handle(&KeyboardInputEvent::AddFocusable(WidgetId(5)));
    h.handle(&KeyboardInputEvent::AddFocusable(WidgetId(2)));
    h.handle(&KeyboardInputEvent::AddFocusable(WidgetId(9)));
    h.handle(&KeyboardInputEvent::RemoveFocusable(WidgetId(2)));
    // adding a widget while another is focused sends nothing
    assert!(h.handle(&KeyboardInputEvent::AddFocusable(WidgetId(1))).is_empty());
    assert_eq!(tab(&mut h), vec![unfocused(5), focused(9)]);
    assert_eq!(tab(&mut h), vec![unfocused(9), focused(1)]);
    assert_eq!(tab(&mut h), vec![unfocused(1), focused(5)]);
}
