use limn::property::{PropSet, Property};
use limn::resources::id::WidgetId;
use limn::style::{ComponentStyle, Selector, Theme};

#[derive(Clone, Debug, PartialEq)]
struct Shade {
    color: Option<u32>,
    radius: Option<u32>,
}

impl ComponentStyle for Shade {
    type Component = (u32, u32);

    fn merge(&self, other: &Self) -> Self {
        Shade { color: self.color.or(other.color), radius: self.radius.or(other.radius) }
    }

    fn component(self) -> (u32, u32) {
        (self.color.unwrap_or(0), self.radius.unwrap_or(0))
    }
}

fn color(c: u32) -> Shade {
    Shade { color: Some(c), radius: None }
}

fn radius(r: u32) -> Shade {
    Shade { color: None, radius: Some(r) }
}

fn props(list: &[Property]) -> PropSet {
    let mut s = PropSet::new();
    for p in list {
        s.insert(*p);
    }
    s
}

fn base() -> Shade {
    Shade { color: Some(1), radius: Some(2) }
}

#[test]
fn selector_prefers_exact_match() {
    let mut sel = Selector::new();
    sel.insert(props(&[Property::Hover]), color(10));
    sel.insert(props(&[Property::Hover, Property::Pressed]), color(20));
    let got = sel.select(base(), &props(&[Property::Hover, Property::Pressed]));
    assert_eq!(got, Shade { color: Some(20), radius: Some(2) });
}

#[test]
fn selector_takes_first_subset_in_order() {
    let mut sel = Selector::new();
    sel.insert(props(&[Property::Selected]), color(30));
    sel.insert(props(&[Property::Hover]), color(40));
    let both = props(&[Property::Hover, Property::Selected]);
    assert_eq!(sel.select(base(), &both).color, Some(30));
    // registering again moves the entry to the end of the order
    sel.insert(props(&[Property::Selected]), color(31));
    assert_eq!(sel.select(base(), &both).color, Some(40));
    assert_eq!(sel.select(base(), &props(&[Property::Selected])).color, Some(31));
}

#[test]
fn selector_keeps_style_when_nothing_applies() {
    let mut sel = Selector::new();
    sel.insert(props(&[Property::Pressed]), color(50));
    assert_eq!(sel.select(base(), &props(&[Property::Hover])), base());
    let empty: Selector<Shade> = Selector::new();
    assert_eq!(empty.select(base(), &PropSet::new()), base());
}

#[test]
fn theme_layers_class_widget_and_props() {
    let mut theme = Theme::new();
    theme.register_type_style(base());
    let w = WidgetId(7);
    let other = WidgetId(8);
    let none = PropSet::new();
    assert_eq!(theme.get_style(None, w, none), base());

    theme.register_style_class("button", color(100));
    assert_eq!(theme.get_style(Some("button".to_string()), w, none), Shade { color: Some(100), radius: Some(2) });
    assert_eq!(theme.get_style(Some("label".to_string()), w, none), base());

    theme.register_style_class_prop("button", props(&[Property::Pressed]), radius(9));
    let pressed = props(&[Property::Pressed]);
    assert_eq!(
        theme.get_style(Some("button".to_string()), w, pressed),
        Shade { color: Some(100), radius: Some(9) }
    );

    theme.register_widget_style(w, color(200));
    assert_eq!(theme.get_style(Some("button".to_string()), w, pressed), Shade { color: Some(200), radius: Some(9) });
    assert_eq!(theme.get_style(Some("button".to_string()), other, pressed), Shade { color: Some(100), radius: Some(9) });

    theme.register_style_widget_prop(w, pressed, Shade { color: Some(300), radius: Some(4) });
    assert_eq!(theme.get_style(None, w, pressed), Shade { color: Some(300), radius: Some(4) });
    assert_eq!(theme.get_style(None, w, none), Shade { color: Some(200), radius: Some(2) });
}
