use limn::input::mouse::{
    hover_prop_change, ClickEvent, MouseAction, MouseController, MouseInputEvent, MouseOverEvent,
    WidgetMouseButton,
};
use limn::input::{ElementState, MouseButton};
use limn::property::{PropChange, Property};
use limn::resources::id::WidgetId;
use limn::ui::mouse as ui_mouse;

type Event = MouseInputEvent<(i32, i32), i32>;

fn over_events(actions: &[MouseAction<(i32, i32), i32>]) -> Vec<(usize, MouseOverEvent)> {
    actions
        .iter()
        .filter_map(|a| match a {
            MouseAction::MouseOver(w, e) => Some((w.0, *e)),
            _ => None,
        })
        .collect()
}

#[test]
fn hover_moves_between_widgets() {
    let mut c = MouseController::new((0, 0));
    let a = c.handle(&Event::MouseMoved((5, 5)), Some(WidgetId(1)));
    assert_eq!(over_events(&a), vec![(1, MouseOverEvent::Over)]);
    assert_eq!(c.mouse, (5, 5));
    let a = c.handle(&Event::MouseMoved((6, 6)), Some(WidgetId(1)));
    assert!(a.is_empty());
    let a = c.handle(&Event::MouseMoved((50, 50)), Some(WidgetId(2)));
    assert_eq!(over_events(&a), vec![(1, MouseOverEvent::Out), (2, MouseOverEvent::Over)]);
    let a = c.handle(&Event::LayoutChanged, None);
    assert_eq!(over_events(&a), vec![(2, MouseOverEvent::Out)]);
    assert_eq!(c.widget_under_mouse, None);
}

#[test]
fn left_release_clicks_at_cursor() {
    let mut c = MouseController::new((0, 0));
    c.handle(&Event::MouseMoved((3, 4)), Some(WidgetId(9)));
    let a = c.handle(&Event::MouseButton(ElementState::Released, MouseButton::Left), None);
    assert_eq!(a.len(), 2);
    match a[0] {
        MouseAction::Button(w, WidgetMouseButton(s, b)) => {
            assert_eq!(w, WidgetId(9));
            assert_eq!(s, ElementState::Released);
            assert_eq!(b, MouseButton::Left);
        }
        _ => panic!("expected a button event"),
    }
    match a[1] {
        MouseAction::Click(w, ClickEvent { position }) => {
            assert_eq!(w, WidgetId(9));
            assert_eq!(position, (3, 4));
        }
        _ => panic!("expected a click"),
    }
    let a = c.handle(&Event::MouseButton(ElementState::Pressed, MouseButton::Left), None);
    assert_eq!(a.len(), 1);
    let a = c.handle(&Event::MouseButton(ElementState::Released, MouseButton::Right), None);
    assert_eq!(a.len(), 1);
}

#[test]
fn buttons_and_wheel_need_a_widget_under_cursor() {
    let mut c = MouseController::new((0, 0));
    assert!(c.handle(&Event::MouseButton(ElementState::Released, MouseButton::Left), None).is_empty());
    assert!(c.handle(&Event::MouseWheel(3), None).is_empty());
    c.handle(&Event::MouseMoved((1, 1)), Some(WidgetId(2)));
    let a = c.handle(&Event::MouseWheel(3), None);
    match a[..] {
        [MouseAction::Wheel(w, d)] => {
            assert_eq!(w, WidgetId(2));
            assert_eq!(d.0, 3);
        }
        _ => panic!("expected one wheel event"),
    }
}

#[test]
fn enable_hover_maps_over_and_out() {
    assert_eq!(hover_prop_change(MouseOverEvent::Over), PropChange::Add(Property::MouseOver));
    assert_eq!(hover_prop_change(MouseOverEvent::Out), PropChange::Remove(Property::MouseOver));
}

fn hovers(actions: &[ui_mouse::MouseAction<(i32, i32), i32>]) -> Vec<(usize, ui_mouse::Hover)> {
    actions
        .iter()
        .filter_map(|a| match a {
            ui_mouse::MouseAction::Widget(w, ui_mouse::WidgetMouseEvent::Hover(h)) => Some((w.0, *h)),
            _ => None,
        })
        .collect()
}

#[test]
fn ui_controller_tracks_all_widgets_under_cursor() {
    let mut c = ui_mouse::MouseController::new((0, 0));
    let a = c.handle(&Event::MouseMoved((1, 1)), &vec![], &vec![WidgetId(3), WidgetId(1), WidgetId(3)]);
    assert_eq!(hovers(&a), vec![(3, ui_mouse::Hover::Over), (1, ui_mouse::Hover::Over)]);
    assert_eq!(c.widgets_over, vec![WidgetId(3), WidgetId(1)]);
    let a = c.handle(&Event::MouseMoved((2, 2)), &vec![false, true], &vec![WidgetId(1), WidgetId(4)]);
    assert_eq!(hovers(&a), vec![(3, ui_mouse::Hover::Out), (4, ui_mouse::Hover::Over)]);
    assert_eq!(c.widgets_over, vec![WidgetId(1), WidgetId(4)]);
    let a = c.handle(&Event::MouseButton(ElementState::Released, MouseButton::Left), &vec![], &vec![]);
    assert_eq!(a.len(), 4);
    let a = c.handle(&Event::LayoutChanged, &vec![], &vec![]);
    match a[..] {
        [ui_mouse::MouseAction::MouseMoved(p)] => assert_eq!(p, (2, 2)),
        _ => panic!("expected a resent cursor move"),
    }
}
