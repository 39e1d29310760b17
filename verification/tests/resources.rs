use limn::resources::id::{Id, IdGen, WidgetId};
use limn::resources::resources_map::ResourceMap;

#[test]
fn id_gen_counts_up() {
    let mut g: IdGen<WidgetId> = IdGen::new();
    assert_eq!(g.next(), WidgetId(0));
    assert_eq!(g.next(), WidgetId(1));
    assert_eq!(g.next(), WidgetId(2));
    assert_eq!(WidgetId::new(7), WidgetId(7));
}

#[test]
fn resource_map_returns_what_was_inserted() {
    let mut m: ResourceMap<WidgetId, &str> = ResourceMap::new();
    let a = m.insert("a");
    let b = m.insert("b");
    assert_ne!(a, b);
    assert_eq!(m.get(a), Some(&"a"));
    assert_eq!(m.get(b), Some(&"b"));
    assert_eq!(m.get(WidgetId(99)), None);
}

#[test]
fn id_gen_ids_stay_distinct() {
    let mut g: IdGen<WidgetId> = IdGen::new();
    let ids: Vec<WidgetId> = (0..100).map(|_| g.next()).collect();
    for (i, id) in ids.iter().enumerate() {
        assert_eq!(*id, WidgetId(i));
    }
}
