use limn::event::{event, event_global, queue_next, GlobalQueue, Queue, Target};
use limn::resources::id::WidgetId;

#[test]
fn queue_is_first_in_first_out() {
    let mut q = Queue::new();
    q.push(Target::Ui, 1);
    q.push(Target::Widget(WidgetId(3)), 2);
    assert_eq!(q.next(), Some((Target::Ui, 1)));
    assert_eq!(q.next(), Some((Target::Widget(WidgetId(3)), 2)));
    assert_eq!(q.next(), None);
}

#[test]
fn global_events_come_first_and_go_to_the_ui() {
    let mut global = GlobalQueue::new();
    let mut local = Queue::new();
    event(&mut local, Target::SubTree(WidgetId(1)), "local");
    event_global(&mut global, "global");
    assert_eq!(queue_next(&mut global, &mut local), Some((Target::Ui, "global")));
    assert_eq!(queue_next(&mut global, &mut local), Some((Target::SubTree(WidgetId(1)), "local")));
    assert_eq!(queue_next(&mut global, &mut local), None);
}

#[test]
fn queue_next_gives_events_in_order_then_none() {
    let mut global: GlobalQueue<u32> = GlobalQueue::new();
    let mut local = Queue::new();
    for i in 0..4u32 {
        event(&mut local, Target::Widget(WidgetId(i as usize)), i);
    }
    for i in 0..4u32 {
        assert_eq!(queue_next(&mut global, &mut local), Some((Target::Widget(WidgetId(i as usize)), i)));
    }
    assert_eq!(queue_next(&mut global, &mut local), None);
}
