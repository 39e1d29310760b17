use vstd::prelude::*;

verus! {

/// The id of a handler registered without an explicit address.
pub type Id = usize;

/// Where a handler on the `EventBus` listens.
#[derive(Clone, Debug, PartialEq, Eq, Hash)]
pub enum EventAddress {
    Id(usize),
    Address(String),
    IdAddress(String, usize),
}

/// The value of an `EventAddress`, with its strings as character sequences.
pub enum EventAddressView {
    Id(usize),
    Address(Seq<char>),
    IdAddress(Seq<char>, usize),
}

impl View for EventAddress {
    type V = EventAddressView;

    open spec fn view(&self) -> EventAddressView {
        match self {
            EventAddress::Id(id) => EventAddressView::Id(*id),
            EventAddress::Address(s) => EventAddressView::Address(s@),
            EventAddress::IdAddress(s, id) => EventAddressView::IdAddress(s@, *id),
        }
    }
}

impl EventAddress {
    /// Whether two addresses are the same.
    pub fn same(&self, other: &EventAddress) -> (r: bool)
        ensures
            r == (self@ == other@),
    {
        match (self, other) {
            (EventAddress::Id(a), EventAddress::Id(b)) => *a == *b,
            (EventAddress::Address(a), EventAddress::Address(b)) => a.eq(b),
            (EventAddress::IdAddress(a, i), EventAddress::IdAddress(b, j)) => *i == *j && a.eq(b),
            _ => false,
        }
    }
}

/// The id that follows `id` when handlers are registered: counting up, wrapping at `usize::MAX`.
pub open spec fn next_handler_id(id: usize) -> usize {
    if id == usize::MAX {
        0
    } else {
        (id + 1) as usize
    }
}

/// Delivers posted values to handlers registered at addresses.
///
/// Each address holds at most one handler; registering at an address that
/// already has one replaces it.
pub struct EventBus<H> {
    next_id: usize,
    handlers: Vec<(EventAddress, H)>,
}

impl<H> EventBus<H> {
    /// The handler registered at each address.
    pub closed spec fn view(&self) -> Map<EventAddressView, H> {
        Map::new(
            |a: EventAddressView| exists|i: int| 0 <= i < self.handlers@.len() && self.handlers@[i].0@ == a,
            |a: EventAddressView|
                self.handlers@[choose|i: int| 0 <= i < self.handlers@.len() && self.handlers@[i].0@ == a].1,
        )
    }

    /// The id the next registered handler receives.
    pub closed spec fn next_id(&self) -> usize {
        self.next_id
    }

    /// No address is held twice.
    pub closed spec fn wf(&self) -> bool {
        forall|i: int, j: int|
            0 <= i < j < self.handlers@.len() ==> self.handlers@[i].0@ != self.handlers@[j].0@
    }

    proof fn lemma_view_at(&self, i: int)
        requires
            self.wf(),
            0 <= i < self.handlers@.len(),
        ensures
            self.view().contains_key(self.handlers@[i].0@),
            self.view()[self.handlers@[i].0@] == self.handlers@[i].1,
    {
        let a = self.handlers@[i].0@;
        let j = choose|j: int| 0 <= j < self.handlers@.len() && self.handlers@[j].0@ == a;
        if j != i {
            if j < i {
                assert(self.handlers@[j].0@ != self.handlers@[i].0@);
            } else {
                assert(self.handlers@[i].0@ != self.handlers@[j].0@);
            }
        }
    }

    pub fn new() -> (bus: Self)
        ensures
            bus.wf(),
            bus.view() == Map::<EventAddressView, H>::empty(),
            bus.next_id() == 0,
    {
        let bus = EventBus { next_id: 0, handlers: Vec::new() };
        assert(bus.view() =~= Map::<EventAddressView, H>::empty());
        bus
    }

    /// The position of the handler at `address`, if there is one.
    fn find(&self, address: &EventAddress) -> (pos: Option<usize>)
        requires
            self.wf(),
        ensures
            pos is None <==> !self.view().contains_key(address@),
            pos matches Some(i) ==> i < self.handlers@.len() && self.handlers@[i as int].0@ == address@,
    {
        let mut i: usize = 0;
        while i < self.handlers.len()
            invariant
                i <= self.handlers@.len(),
                forall|j: int| 0 <= j < i ==> self.handlers@[j].0@ != address@,
            decreases self.handlers@.len() - i,
        {
            if self.handlers[i].0.same(address) {
                return Some(i);
            }
            i = i + 1;
        }
        None
    }

    /// Registers `handler` under a fresh id, which is returned.
    pub fn register(&mut self, handler: H) -> (id: Id)
        requires
            old(self).wf(),
        ensures
            final(self).wf(),
            id == old(self).next_id(),
            final(self).next_id() == next_handler_id(old(self).next_id()),
            final(self).view() == old(self).view().insert(EventAddressView::Id(id), handler),
    {
        let id = self.next_id;
        self.next_id = id.wrapping_add(1);
        self.register_address(EventAddress::Id(id), handler);
        id
    }

    /// Registers `handler` at `event_address`, replacing any handler there.
    pub fn register_address(&mut self, event_address: EventAddress, handler: H)
        requires
            old(self).wf(),
        ensures
            final(self).wf(),
            final(self).next_id() == old(self).next_id(),
            final(self).view() == old(self).view().insert(event_address@, handler),
    {
        let ghost a = event_address@;
        let ghost old_handlers = self.handlers@;
        match self.find(&event_address) {
            Some(i) => {
                self.handlers.set(i, (event_address, handler));
                proof {
                    assert forall|x: int, y: int|
                        0 <= x < y < self.handlers@.len() implies self.handlers@[x].0@
                        != self.handlers@[y].0@ by {
                        assert(old_handlers[x].0@ != old_handlers[y].0@);
                    }
                    assert forall|b: EventAddressView| #[trigger]
                        self.view().contains_key(b) == old(self).view().insert(a, handler).contains_key(b)
                        by {
                        if b != a && old(self).view().contains_key(b) {
                            let j = choose|j: int|
                                0 <= j < old_handlers.len() && old_handlers[j].0@ == b;
                            assert(self.handlers@[j].0@ == b);
                        }
                        if b == a {
                            assert(self.handlers@[i as int].0@ == b);
                        }
                        if self.view().contains_key(b) && b != a {
                            let j = choose|j: int|
                                0 <= j < self.handlers@.len() && self.handlers@[j].0@ == b;
                            assert(old_handlers[j].0@ == b);
                        }
                    }
                    assert forall|b: EventAddressView| #[trigger]
                        self.view().contains_key(b) implies self.view()[b] == old(self).view().insert(
                            a,
                            handler,
                        )[b] by {
                        let j = choose|j: int|
                            0 <= j < self.handlers@.len() && self.handlers@[j].0@ == b;
                        self.lemma_view_at(j);
                        if b != a {
                            old(self).lemma_view_at(j);
                        }
                    }
                    assert(self.view() =~= old(self).view().insert(a, handler));
                }
            },
            None => {
                self.handlers.push((event_address, handler));
                proof {
                    let n = old_handlers.len();
                    assert forall|x: int, y: int|
                        0 <= x < y < self.handlers@.len() implies self.handlers@[x].0@
                        != self.handlers@[y].0@ by {
                        if y == n {
                            assert(old(self).view().contains_key(old_handlers[x].0@));
                        } else {
                            assert(old_handlers[x].0@ != old_handlers[y].0@);
                        }
                    }
                    assert forall|b: EventAddressView| #[trigger]
                        self.view().contains_key(b) == old(self).view().insert(a, handler).contains_key(b)
                        by {
                        if b != a && old(self).view().contains_key(b) {
                            let j = choose|j: int|
                                0 <= j < old_handlers.len() && old_handlers[j].0@ == b;
                            assert(self.handlers@[j].0@ == b);
                        }
                        if b == a {
                            assert(self.handlers@[n as int].0@ == b);
                        }
                        if self.view().contains_key(b) && b != a {
                            let j = choose|j: int|
                                0 <= j < self.handlers@.len() && self.handlers@[j].0@ == b;
                            assert(old_handlers[j].0@ == b);
                        }
                    }
                    assert forall|b: EventAddressView| #[trigger]
                        self.view().contains_key(b) implies self.view()[b] == old(self).view().insert(
                            a,
                            handler,
                        )[b] by {
                        let j = choose|j: int|
                            0 <= j < self.handlers@.len() && self.handlers@[j].0@ == b;
                        self.lemma_view_at(j);
                        if b != a {
                            old(self).lemma_view_at(j);
                        }
                    }
                    assert(self.view() =~= old(self).view().insert(a, handler));
                }
            },
        }
    }

    /// Removes the handler registered under `id`, if any.
    pub fn unregister(&mut self, id: Id)
        requires
            old(self).wf(),
        ensures
            final(self).wf(),
            final(self).next_id() == old(self).next_id(),
            final(self).view() == old(self).view().remove(EventAddressView::Id(id)),
    {
        let address = EventAddress::Id(id);
        let ghost a = address@;
        let ghost old_handlers = self.handlers@;
        match self.find(&address) {
            Some(i) => {
                self.handlers.remove(i);
                proof {
                    let n = old_handlers.len();
                    assert forall|x: int, y: int|
                        0 <= x < y < self.handlers@.len() implies self.handlers@[x].0@
                        != self.handlers@[y].0@ by {
                        let ox = if x < i { x } else { x + 1 };
                        let oy = if y < i { y } else { y + 1 };
                        assert(self.handlers@[x] == old_handlers[ox]);
                        assert(self.handlers@[y] == old_handlers[oy]);
                    }
                    assert forall|b: EventAddressView| #[trigger]
                        self.view().contains_key(b) == old(self).view().remove(a).contains_key(b) by {
                        if b != a && old(self).view().contains_key(b) {
                            let j = choose|j: int|
                                0 <= j < old_handlers.len() && old_handlers[j].0@ == b;
                            assert(j != i);
                            if j < i {
                                assert(self.handlers@[j].0@ == b);
                            } else {
                                assert(self.handlers@[j - 1].0@ == b);
                            }
                        }
                        if self.view().contains_key(b) {
                            let j = choose|j: int|
                                0 <= j < self.handlers@.len() && self.handlers@[j].0@ == b;
                            let oj = if j < i { j } else { j + 1 };
                            assert(self.handlers@[j] == old_handlers[oj]);
                            assert(oj != i);
                            if oj < i {
                                assert(old_handlers[oj].0@ != old_handlers[i as int].0@);
                            } else {
                                assert(old_handlers[i as int].0@ != old_handlers[oj].0@);
                            }
                        }
                    }
                    assert forall|b: EventAddressView| #[trigger]
                        self.view().contains_key(b) implies self.view()[b] == old(self).view().remove(
                            a,
                        )[b] by {
                        let j = choose|j: int|
                            0 <= j < self.handlers@.len() && self.handlers@[j].0@ == b;
                        let oj = if j < i { j } else { j + 1 };
                        assert(self.handlers@[j] == old_handlers[oj]);
                        self.lemma_view_at(j);
                        old(self).lemma_view_at(oj);
                    }
                    assert(self.view() =~= old(self).view().remove(a));
                }
            },
            None => {
                assert(self.view() =~= old(self).view().remove(a));
            },
        }
    }

    /// Removes every handler.
    pub fn unregister_all(&mut self)
        ensures
            final(self).wf(),
            final(self).next_id() == old(self).next_id(),
            final(self).view() == Map::<EventAddressView, H>::empty(),
    {
        self.handlers.clear();
        assert(self.view() =~= Map::<EventAddressView, H>::empty());
    }
}

impl<H> EventBus<H> {
    /// Calls the handler registered under `id` with `arg`; returns whether there was one.
    pub fn post_id<T>(&self, id: Id, arg: T) -> (found: bool) where H: Fn(T)
        requires
            self.wf(),
            self.view().contains_key(EventAddressView::Id(id)) ==> call_requires(
                self.view()[EventAddressView::Id(id)],
                (arg,),
            ),
        ensures
            found == self.view().contains_key(EventAddressView::Id(id)),
            found ==> call_ensures(self.view()[EventAddressView::Id(id)], (arg,), ()),
    {
        self.post_address(EventAddress::Id(id), arg)
    }

    /// Calls the handler registered at `event_address` with `arg`; returns whether there was one.
    pub fn post_address<T>(&self, event_address: EventAddress, arg: T) -> (found: bool) where H: Fn(T)
        requires
            self.wf(),
            self.view().contains_key(event_address@) ==> call_requires(
                self.view()[event_address@],
                (arg,),
            ),
        ensures
            found == self.view().contains_key(event_address@),
            found ==> call_ensures(self.view()[event_address@], (arg,), ()),
    {
        match self.find(&event_address) {
            Some(i) => {
                proof {
                    self.lemma_view_at(i as int);
                }
                let handler = &self.handlers[i].1;
                handler(arg);
                true
            },
            None => false,
        }
    }
}

} // verus!

verus! {

/// A handler registered with `register` is found by `post_id` with the returned
/// id; after `unregister` with that id, `post_id` finds nothing.
pub proof fn law_register_post_unregister<H>(
    bus: EventBus<H>,
    registered: EventBus<H>,
    unregistered: EventBus<H>,
    id: Id,
    handler: H,
)
    requires
        id == bus.next_id(),
        registered.view() == bus.view().insert(EventAddressView::Id(id), handler),
        unregistered.view() == registered.view().remove(EventAddressView::Id(id)),
    ensures
        registered.view().contains_key(EventAddressView::Id(id)),
        registered.view()[EventAddressView::Id(id)] == handler,
        !unregistered.view().contains_key(EventAddressView::Id(id)),
{
}

/// Registering at an address that already holds a handler replaces it; the
/// handlers at other addresses stay.
pub proof fn law_register_address_replaces<H>(
    bus: EventBus<H>,
    after: EventBus<H>,
    address: EventAddress,
    handler: H,
)
    requires
        after.view() == bus.view().insert(address@, handler),
    ensures
        after.view()[address@] == handler,
        forall|a: EventAddressView| a != address@ ==> (#[trigger] after.view().contains_key(a)
            <==> bus.view().contains_key(a)),
        forall|a: EventAddressView| a != address@ && bus.view().contains_key(a) ==> #[trigger] after.view()[a]
            == bus.view()[a],
{
}

/// Of two registrations at one address, the later wins: after
/// `register_address(a, h1)` and then `register_address(a, h2)`, posting to `a`
/// finds `h2`, and every other address holds what it held before both.
pub proof fn law_later_registration_wins<H>(
    bus: EventBus<H>,
    first: EventBus<H>,
    second: EventBus<H>,
    address: EventAddress,
    h1: H,
    h2: H,
)
    requires
        first.view() == bus.view().insert(address@, h1),
        second.view() == first.view().insert(address@, h2),
    ensures
        second.view().contains_key(address@),
        second.view()[address@] == h2,
        forall|a: EventAddressView| a != address@ ==> (#[trigger] second.view().contains_key(a)
            <==> bus.view().contains_key(a)),
        forall|a: EventAddressView| a != address@ && bus.view().contains_key(a) ==> #[trigger] second.view()[a]
            == bus.view()[a],
{
}

/// Successive registrations receive successive ids, so handlers registered
/// with `register` do not replace each other until the id counter wraps.
pub proof fn law_register_ids_fresh(id: Id)
    requires
        id < usize::MAX,
    ensures
        next_handler_id(id) == id + 1,
        next_handler_id(id) != id,
{
}

} // verus!

verus! {

/// A call on an `EventBus`, as the id counter sees it.
pub enum BusCall {
    Register,
    RegisterAddress,
    Unregister,
    UnregisterAll,
    Post,
}

/// The id counter after `call`, from `id`: `register` moves it on, every other call keeps it.
pub open spec fn id_after_call(id: usize, call: BusCall) -> usize {
    match call {
        BusCall::Register => next_handler_id(id),
        _ => id,
    }
}

/// How many of `calls` are registrations.
pub open spec fn registrations(calls: Seq<BusCall>) -> nat
    decreases calls.len(),
{
    if calls.len() == 0 {
        0
    } else {
        registrations(calls.drop_last()) + if calls.last() is Register {
            1nat
        } else {
            0nat
        }
    }
}

/// The id counter after `k` registrations, from `start`.
pub open spec fn id_after_registrations(start: usize, k: nat) -> usize
    decreases k,
{
    if k == 0 {
        start
    } else {
        next_handler_id(id_after_registrations(start, (k - 1) as nat))
    }
}

/// The id counter is never reset: over any run of calls on a bus
/// (`buses[i + 1]` is `buses[i]` after `calls[i]`), the counter ends where the
/// registrations alone take it; unregistering and posting do not give ids back.
pub proof fn law_id_counter_never_reset<H>(buses: Seq<EventBus<H>>, calls: Seq<BusCall>)
    requires
        buses.len() == calls.len() + 1,
        forall|i: int|
            0 <= i < calls.len() ==> #[trigger] buses[i + 1].next_id() == id_after_call(buses[i].next_id(), calls[i]),
    ensures
        buses.last().next_id() == id_after_registrations(buses[0].next_id(), registrations(calls)),
    decreases calls.len(),
{
    if calls.len() > 0 {
        let n = calls.len() - 1;
        assert forall|i: int| 0 <= i < calls.drop_last().len() implies #[trigger] buses.drop_last()[i + 1].next_id()
            == id_after_call(buses.drop_last()[i].next_id(), calls.drop_last()[i]) by {
            assert(buses[i + 1].next_id() == id_after_call(buses[i].next_id(), calls[i]));
        }
        law_id_counter_never_reset(buses.drop_last(), calls.drop_last());
        assert(buses[n + 1].next_id() == id_after_call(buses[n].next_id(), calls[n]));
    }
}

/// Handler ids wrap only after `usize::MAX + 1` registrations: the counter after
/// `k` of them counts up from `start`, going on from zero past `usize::MAX`, and
/// the ids handed out by the first `k` are pairwise distinct.
pub proof fn law_handler_ids_wrap(start: usize, k: nat)
    requires
        k <= usize::MAX + 1,
    ensures
        id_after_registrations(start, k) == (if start + k <= usize::MAX {
            start + k
        } else {
            start + k - (usize::MAX + 1)
        }),
        forall|i: nat, j: nat|
            i < j < k ==> #[trigger] id_after_registrations(start, i) != #[trigger] id_after_registrations(start, j),
    decreases k,
{
    if k > 0 {
        law_handler_ids_wrap(start, (k - 1) as nat);
        assert forall|i: nat, j: nat| i < j < k implies #[trigger] id_after_registrations(start, i)
            != #[trigger] id_after_registrations(start, j) by {
            law_handler_ids_wrap(start, i);
            law_handler_ids_wrap(start, j);
        }
    }
}

/// A call on an `EventBus`, with what it takes, as the registrations see it.
pub enum BusOp<H> {
    Register(H),
    RegisterAddress(EventAddressView, H),
    Unregister(Id),
    UnregisterAll,
    Post,
}

/// `after` is `before` after `op`, as the contracts of the bus's functions state.
pub open spec fn bus_step<H>(before: EventBus<H>, after: EventBus<H>, op: BusOp<H>) -> bool {
    match op {
        BusOp::Register(h) => {
            &&& after.view() == before.view().insert(EventAddressView::Id(before.next_id()), h)
            &&& after.next_id() == next_handler_id(before.next_id())
        },
        BusOp::RegisterAddress(a, h) => after.view() == before.view().insert(a, h) && after.next_id()
            == before.next_id(),
        BusOp::Unregister(i) => after.view() == before.view().remove(EventAddressView::Id(i))
            && after.next_id() == before.next_id(),
        BusOp::UnregisterAll => after.view() == Map::<EventAddressView, H>::empty() && after.next_id()
            == before.next_id(),
        BusOp::Post => after.view() == before.view() && after.next_id() == before.next_id(),
    }
}

/// Whether `op` on `bus` changes what is registered under `id`: a registration
/// that is given `id` or is made at its address, unregistering `id`, or
/// unregistering everything.
pub open spec fn touches_id<H>(bus: EventBus<H>, op: BusOp<H>, id: Id) -> bool {
    match op {
        BusOp::Register(_) => bus.next_id() == id,
        BusOp::RegisterAddress(a, _) => a == EventAddressView::Id(id),
        BusOp::Unregister(i) => i == id,
        BusOp::UnregisterAll => true,
        BusOp::Post => false,
    }
}

/// A handler registered under `id` stays there over any run of calls that do not
/// touch `id` (`buses[k + 1]` is `buses[k]` after `ops[k]`), so `post_id(id, x)`
/// then still finds it and calls it, and no other handler, with `x`.
pub proof fn law_handler_stays_registered<H>(buses: Seq<EventBus<H>>, ops: Seq<BusOp<H>>, id: Id, h: H)
    requires
        buses.len() == ops.len() + 1,
        buses[0].view().contains_key(EventAddressView::Id(id)),
        buses[0].view()[EventAddressView::Id(id)] == h,
        forall|k: int| 0 <= k < ops.len() ==> #[trigger] bus_step(buses[k], buses[k + 1], ops[k]),
        forall|k: int| 0 <= k < ops.len() ==> !#[trigger] touches_id(buses[k], ops[k], id),
    ensures
        buses.last().view().contains_key(EventAddressView::Id(id)),
        buses.last().view()[EventAddressView::Id(id)] == h,
    decreases ops.len(),
{
    if ops.len() > 0 {
        let n = ops.len() - 1;
        let bs = buses.drop_last();
        let os = ops.drop_last();
        assert forall|k: int| 0 <= k < os.len() implies #[trigger] bus_step(bs[k], bs[k + 1], os[k]) by {
            assert(bus_step(buses[k], buses[k + 1], ops[k]));
        }
        assert forall|k: int| 0 <= k < os.len() implies !#[trigger] touches_id(bs[k], os[k], id) by {
            assert(!touches_id(buses[k], ops[k], id));
        }
        law_handler_stays_registered(bs, os, id, h);
        assert(bus_step(buses[n], buses[n + 1], ops[n]));
        assert(!touches_id(buses[n], ops[n], id));
        assert(bs.last() == buses[n]);
    }
}

} // verus!
