use std::cell::{Cell, RefCell};
use std::rc::Rc;

use limn::eventbus::{EventAddress, EventBus};

#[test]
fn eventbus_works() {
    fn my_handler(arg: String) {
        println!("my_handler {:?}", arg);
    }

    let mut bus = EventBus::new();
    let handler = bus.register(my_handler);
    bus.unregister(handler);

    let string = "Hello world";
    let found = bus.post_id(handler, string.to_owned());
    assert!(!found);
}

#[test]
fn eventbus_post_reaches_registered_handler() {
    let received = Rc::new(RefCell::new(Vec::new()));
    let sink = received.clone();
    let mut bus = EventBus::new();
    let id = bus.register(move |arg: u32| sink.borrow_mut().push(arg));
    assert_eq!(id, 0);
    assert!(bus.post_id(id, 7u32));
    assert!(!bus.post_id(id + 1, 8u32));
    assert_eq!(*received.borrow(), vec![7]);
}

#[test]
fn eventbus_ids_count_up() {
    fn noop(_: u8) {}
    let mut bus = EventBus::new();
    assert_eq!(bus.register(noop), 0);
    assert_eq!(bus.register(noop), 1);
    assert_eq!(bus.register(noop), 2);
}

#[test]
fn eventbus_address_replaces_and_unregister_all_clears() {
    let hits = Rc::new(Cell::new(0u32));
    let h1 = hits.clone();
    let h2 = hits.clone();
    let mut bus: EventBus<Box<dyn Fn(u32)>> = EventBus::new();
    let address = EventAddress::Address("clicks".to_owned());
    bus.register_address(address.clone(), Box::new(move |v: u32| h1.set(h1.get() + v)));
    bus.register_address(address.clone(), Box::new(move |v: u32| h2.set(h2.get() + 10 * v)));
    assert!(bus.post_address(address.clone(), 1));
    assert_eq!(hits.get(), 10);
    assert!(!bus.post_address(EventAddress::IdAddress("clicks".to_owned(), 0), 1));
    bus.unregister_all();
    assert!(!bus.post_address(address, 1));
    assert_eq!(hits.get(), 10);
}

#[test]
fn eventbus_post_id_calls_the_handler_once() {
    let calls = Rc::new(Cell::new(0u32));
    let other_calls = Rc::new(Cell::new(0u32));
    let c = calls.clone();
    let o = other_calls.clone();
    let mut bus: EventBus<Box<dyn Fn(u32)>> = EventBus::new();
    let other = bus.register(Box::new(move |_: u32| o.set(o.get() + 1)));
    let id = bus.register(Box::new(move |v: u32| c.set(c.get() + v)));
    assert!(bus.post_id(id, 5));
    assert_eq!(calls.get(), 5);
    assert_eq!(other_calls.get(), 0);
    assert!(bus.post_id(other, 0));
    assert_eq!(other_calls.get(), 1);
}

#[test]
fn eventbus_ids_are_not_reused_after_unregistering() {
    fn noop(_: u8) {}
    let mut bus = EventBus::new();
    let a = bus.register(noop);
    bus.unregister(a);
    bus.register_address(EventAddress::Address("x".to_owned()), noop);
    let b = bus.register(noop);
    bus.unregister_all();
    assert!(!bus.post_id(b, 1));
    let c = bus.register(noop);
    assert_eq!((a, b, c), (0, 1, 2));
}
