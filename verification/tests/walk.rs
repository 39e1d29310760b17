use limn::event::Target;
use limn::resources::id::WidgetId;
use limn::ui::graph::WidgetGraph;
use limn::ui::tree::WidgetTree;
use limn::ui::walk::{CursorWidgetWalker, DfsPostReverse};
use limn::ui::Ui;

fn sample_tree() -> WidgetTree {
    let mut tree = WidgetTree::new(WidgetId(0));
    tree.add_child(WidgetId(0), WidgetId(1));
    tree.add_child(WidgetId(0), WidgetId(2));
    tree.add_child(WidgetId(1), WidgetId(3));
    tree.add_child(WidgetId(1), WidgetId(4));
    tree
}

#[test]
fn walk_goes_in_reverse_draw_order() {
    let tree = sample_tree();
    // drawn as 0, 1, 3, 4, 2
    assert_eq!(tree.subtree_widgets(WidgetId(0)), vec![WidgetId(0), WidgetId(1), WidgetId(3), WidgetId(4), WidgetId(2)]);
    let mut dfs = DfsPostReverse::new(&tree, WidgetId(0));
    let mut seen = Vec::new();
    while let Some(w) = dfs.next(&tree) {
        seen.push(w);
    }
    assert_eq!(seen, vec![WidgetId(2), WidgetId(4), WidgetId(3), WidgetId(1), WidgetId(0)]);
    assert_eq!(dfs.next(&tree), None);
}

#[test]
fn walk_of_a_leaf_is_the_leaf() {
    let tree = sample_tree();
    assert!(tree.contains_widget(WidgetId(4)));
    assert!(!tree.contains_widget(WidgetId(9)));
    let mut dfs = DfsPostReverse::new(&tree, WidgetId(4));
    assert_eq!(dfs.next(&tree), Some(WidgetId(4)));
    assert_eq!(dfs.next(&tree), None);
}

#[test]
fn cursor_walker_keeps_widgets_under_the_cursor() {
    let tree = sample_tree();
    let mut walker = CursorWidgetWalker::new(&tree, WidgetId(0));
    let odd = |w: WidgetId| w.0 % 2 == 1;
    assert_eq!(walker.next(&tree, odd), Some(WidgetId(3)));
    assert_eq!(walker.next(&tree, odd), Some(WidgetId(1)));
    assert_eq!(walker.next(&tree, odd), None);
}

#[test]
fn ui_finds_the_topmost_widget_under_the_cursor() {
    let mut ui = Ui::new(WidgetId(0));
    ui.add_widget(WidgetId(0), WidgetId(1));
    ui.add_widget(WidgetId(0), WidgetId(2));
    ui.add_widget(WidgetId(1), WidgetId(3));
    assert_eq!(ui.widget_under_cursor(|w: WidgetId| w.0 == 1 || w.0 == 3), Some(WidgetId(3)));
    assert_eq!(ui.widget_under_cursor(|w: WidgetId| w.0 == 0), Some(WidgetId(0)));
    assert_eq!(ui.widget_under_cursor(|_w: WidgetId| false), None);
    let mut walker = ui.widgets_under_cursor();
    assert_eq!(walker.next(ui.widgets(), |_w: WidgetId| true), Some(WidgetId(2)));
}

#[test]
fn widget_graph_adds_finds_and_removes() {
    let mut graph = WidgetGraph::new(WidgetId(0));
    assert_eq!(graph.root_id(), WidgetId(0));
    let root = graph.add_widget(WidgetId(0), None).unwrap();
    let child = graph.add_widget(WidgetId(5), Some(WidgetId(0))).unwrap();
    assert_ne!(root, child);
    assert_eq!(graph.get_widget(WidgetId(5)), Some(WidgetId(5)));
    assert_eq!(graph.get_widget(WidgetId(6)), None);
    assert_eq!(graph.remove_widget(WidgetId(5)), Some(WidgetId(5)));
    assert_eq!(graph.get_widget(WidgetId(5)), None);
    assert_eq!(graph.remove_widget(WidgetId(5)), None);
    // the freed node index is used again
    assert_eq!(graph.add_widget(WidgetId(7), Some(WidgetId(0))), Ok(child));
    assert_eq!(graph.get_widget(WidgetId(0)), Some(WidgetId(0)));
}

#[test]
fn ui_delivers_events_by_target() {
    let mut ui = Ui::new(WidgetId(0));
    ui.add_widget(WidgetId(0), WidgetId(1));
    ui.add_widget(WidgetId(1), WidgetId(2));
    ui.add_widget(WidgetId(0), WidgetId(3));
    assert!(ui.draw_if_needed());

    let to = |ds: &Vec<(WidgetId, bool, bool)>| ds.iter().map(|d| d.0).collect::<Vec<_>>();
    let ds = ui.handle_event(Target::SubTree(WidgetId(0)), |_w: WidgetId| (false, false));
    assert_eq!(to(&ds), vec![WidgetId(0), WidgetId(1), WidgetId(2), WidgetId(3)]);
    assert!(!ui.needs_redraw());

    // bubbling stops at the first widget that handles the event
    let ds = ui.handle_event(Target::BubbleUp(WidgetId(2)), |w: WidgetId| (w.0 == 1, w.0 == 2));
    assert_eq!(ds, vec![(WidgetId(2), false, true), (WidgetId(1), true, false)]);
    assert!(ui.needs_redraw());

    // unhandled, it goes up to the root
    let ds = ui.handle_event(Target::BubbleUp(WidgetId(2)), |_w: WidgetId| (false, false));
    assert_eq!(to(&ds), vec![WidgetId(2), WidgetId(1), WidgetId(0)]);

    let ds = ui.handle_event(Target::Widget(WidgetId(3)), |_w: WidgetId| (true, false));
    assert_eq!(ds, vec![(WidgetId(3), true, false)]);
    assert!(ui.handle_event(Target::Ui, |_w: WidgetId| (true, true)).is_empty());
}
