use limn::event::Target;
use limn::resources::id::WidgetId;
use limn::ui::keyboard::{FocusHandler, KeyboardForwarder, KeyboardInputEvent, WidgetFocusHandler};
use limn::ui::Ui;
use limn::input::keyboard::{KeyboardInput, WidgetKeyboardInput};
use limn::input::mouse::ClickEvent;
use limn::input::ElementState;

fn sample() -> Ui {
    let mut ui = Ui::new(WidgetId(0));
    ui.add_widget(WidgetId(0), WidgetId(1));
    ui.add_widget(WidgetId(0), WidgetId(2));
    ui.add_widget(WidgetId(1), WidgetId(3));
    ui.add_widget(WidgetId(1), WidgetId(4));
    ui
}

#[test]
fn subtree_events_reach_parents_before_children() {
    let ui = sample();
    let ids: Vec<usize> = ui.event_targets(Target::SubTree(WidgetId(0))).iter().map(|w| w.0).collect();
    assert_eq!(ids, vec![0, 1, 3, 4, 2]);
    let ids: Vec<usize> = ui.event_targets(Target::SubTree(WidgetId(1))).iter().map(|w| w.0).collect();
    assert_eq!(ids, vec![1, 3, 4]);
    assert_eq!(ui.event_targets(Target::Widget(WidgetId(4))), vec![WidgetId(4)]);
    assert!(ui.event_targets(Target::Ui).is_empty());
}

#[test]
fn bubbling_climbs_until_handled() {
    let ui = sample();
    assert_eq!(ui.event_targets(Target::BubbleUp(WidgetId(3))), vec![WidgetId(3)]);
    assert_eq!(ui.bubble_next(WidgetId(3), false), Some(WidgetId(1)));
    assert_eq!(ui.bubble_next(WidgetId(1), false), Some(WidgetId(0)));
    assert_eq!(ui.bubble_next(WidgetId(0), false), None);
    assert_eq!(ui.bubble_next(WidgetId(3), true), None);
}

#[test]
fn breadth_first_walk() {
    let ui = sample();
    let mut bfs = ui.bfs();
    let mut seen = Vec::new();
    while let Some(w) = bfs.next(ui.widgets()) {
        seen.push(w.0);
    }
    assert_eq!(seen, vec![0, 1, 2, 3, 4]);
}

#[test]
fn redraw_and_close_flags() {
    let mut ui = Ui::new(WidgetId(0));
    assert!(ui.draw_if_needed());
    assert!(!ui.draw_if_needed());
    ui.widget_updated(false);
    assert!(!ui.draw_if_needed());
    ui.widget_updated(true);
    assert!(ui.draw_if_needed());
    ui.set_debug_draw_bounds(true);
    assert!(ui.debug_draw_bounds());
    assert!(ui.draw_if_needed());
    assert!(!ui.should_close());
    ui.close();
    assert!(ui.should_close());
}

#[test]
fn ui_focus_handler_forwards_keys() {
    let mut h = FocusHandler::new();
    let input = KeyboardInput(ElementState::Pressed, 5, None);
    assert_eq!(h.handle(&KeyboardInputEvent::KeyboardInput(input)), None);
    let click = ClickEvent { position: (1, 1) };
    let change = WidgetFocusHandler.handle(&click, WidgetId(8));
    assert_eq!(change, KeyboardInputEvent::FocusChange(Some(WidgetId(8))));
    assert_eq!(h.handle(&change), None);
    let forwarded = KeyboardForwarder.handle(&input);
    assert_eq!(
        h.handle(&forwarded),
        Some((WidgetId(8), WidgetKeyboardInput(ElementState::Pressed, 5, None)))
    );
}
