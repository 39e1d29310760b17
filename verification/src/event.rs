use std::collections::VecDeque;

use vstd::prelude::*;

use crate::resources::id::WidgetId;
use crate::ui::Ui;

verus! {

broadcast use vstd::std_specs::vecdeque::group_vec_dequeue_axioms;

/// Defines the different targets that events can be delivered to.
/// An event will be sent to all handlers that match both the Target,
/// and the event type.
#[derive(Copy, Clone, Debug, PartialEq, Eq, Structural, Hash)]
pub enum Target {
    /// Sends an event to a specific widget
    Widget(WidgetId),
    /// Sends an event to every descendant of a specific widget
    SubTree(WidgetId),
    /// Sends an event to a widget and continues sending to it's
    /// ancestors until an event handler marks the event as handled
    BubbleUp(WidgetId),
    /// Sends an event to a UiEventHandler registered for the entire application
    Ui,
}

/// The events waiting to be handled on the main thread, each with its target, first in first out.
pub struct Queue<E> {
    queue: VecDeque<(Target, E)>,
}

impl<E> Queue<E> {
    /// The waiting events, oldest first.
    pub closed spec fn view(&self) -> Seq<(Target, E)> {
        self.queue@
    }

    pub fn new() -> (q: Self)
        ensures
            q@ == Seq::<(Target, E)>::empty(),
    {
        Queue { queue: VecDeque::new() }
    }

    /// Puts a new event at the back of the queue.
    pub fn push(&mut self, address: Target, data: E)
        ensures
            final(self)@ == old(self)@.push((address, data)),
    {
        self.queue.push_back((address, data));
    }

    /// Takes the oldest event off the queue.
    pub fn next(&mut self) -> (next: Option<(Target, E)>)
        ensures
            old(self)@.len() == 0 ==> next is None && final(self)@ == old(self)@,
            old(self)@.len() > 0 ==> next == Some(old(self)@[0]) && final(self)@ == old(self)@.drop_first(),
    {
        self.queue.pop_front()
    }
}

/// The events posted from any thread; they are all handled by the Ui, first in first out.
pub struct GlobalQueue<E> {
    queue: VecDeque<E>,
}

impl<E> GlobalQueue<E> {
    /// The waiting events, oldest first.
    pub closed spec fn view(&self) -> Seq<E> {
        self.queue@
    }

    pub fn new() -> (q: Self)
        ensures
            q@ == Seq::<E>::empty(),
    {
        GlobalQueue { queue: VecDeque::new() }
    }

    /// Puts a new event at the back of the queue.
    pub fn push(&mut self, data: E)
        ensures
            final(self)@ == old(self)@.push(data),
    {
        self.queue.push_back(data);
    }

    /// Takes the oldest event off the queue.
    pub fn next(&mut self) -> (next: Option<E>)
        ensures
            old(self)@.len() == 0 ==> next is None && final(self)@ == old(self)@,
            old(self)@.len() > 0 ==> next == Some(old(self)@[0]) && final(self)@ == old(self)@.drop_first(),
    {
        self.queue.pop_front()
    }
}

/// What taking the next event does to the global queue `g0` and the local queue
/// `l0`, giving `next` and the queues `g1` and `l1`: the first global event goes
/// to the Ui; when there is none, the first local event comes off; when both are
/// empty there is no event.
pub open spec fn queue_next_step<E>(
    g0: Seq<E>,
    l0: Seq<(Target, E)>,
    next: Option<(Target, E)>,
    g1: Seq<E>,
    l1: Seq<(Target, E)>,
) -> bool {
    if g0.len() > 0 {
        &&& next == Some((Target::Ui, g0[0]))
        &&& g1 == g0.drop_first()
        &&& l1 == l0
    } else if l0.len() > 0 {
        &&& next == Some(l0[0])
        &&& g1 == g0
        &&& l1 == l0.drop_first()
    } else {
        &&& next is None
        &&& g1 == g0
        &&& l1 == l0
    }
}

/// The next event to handle: events posted from other threads come first, and go
/// to the Ui; then the events of the main thread, in the order they were sent.
pub fn queue_next<E>(global: &mut GlobalQueue<E>, local: &mut Queue<E>) -> (next: Option<(Target, E)>)
    ensures
        queue_next_step(old(global)@, old(local)@, next, final(global)@, final(local)@),
{
    if let Some(next) = global.next() {
        Some((Target::Ui, next))
    } else {
        local.next()
    }
}

/// Sends an event to `address` through the main thread's queue.
pub fn event<E>(queue: &mut Queue<E>, address: Target, data: E)
    ensures
        final(queue)@ == old(queue)@.push((address, data)),
{
    queue.push(address, data);
}

/// Sends an event to the Ui through the queue shared by all threads.
pub fn event_global<E>(queue: &mut GlobalQueue<E>, data: E)
    ensures
        final(queue)@ == old(queue)@.push(data),
{
    queue.push(data);
}

/// Context passed to a `WidgetEventHandler`: the widget the event is delivered
/// to, and a flag that the handler sets to stop an event from bubbling further up.
pub struct WidgetEventArgs<'a> {
    pub widget: WidgetId,
    pub handled: &'a mut bool,
}

/// Used to create a stateful event handler for widgets.
pub trait WidgetEventHandler<T> {
    fn handle(&mut self, event: &T, args: WidgetEventArgs);
}

/// Used to create a stateful event handler for the whole Ui.
pub trait UiEventHandler<T> {
    fn handle(&mut self, event: &T, ui: &mut Ui);
}

} // verus!

verus! {

/// Events come off a queue in the order they were pushed: pushing `data` onto a
/// queue holding `events` and then taking events off gives `events` first and
/// `data` last.
pub proof fn law_queue_fifo<E>(events: Seq<(Target, E)>, address: Target, data: E)
    ensures
        events.len() > 0 ==> events.push((address, data))[0] == events[0],
        events.push((address, data)).drop_first() == (if events.len() > 0 {
            events.drop_first().push((address, data))
        } else {
            Seq::<(Target, E)>::empty()
        }),
        events.push((address, data))[events.len() as int] == (address, data),
{
    if events.len() > 0 {
        assert(events.push((address, data)).drop_first() =~= events.drop_first().push((address, data)));
    } else {
        assert(events.push((address, data)).drop_first() =~= Seq::<(Target, E)>::empty());
    }
}

} // verus!

verus! {

/// With nothing from other threads, events come off the local queue in the
/// order they were sent, each once: over a run of `queue_next` calls
/// (`nexts[k]` taken from `locals[k]`, leaving `locals[k + 1]`), the `k`-th call
/// gives the `k`-th event of `locals[0]`, and `None` once they are all taken.
pub proof fn law_queue_fifo_run<E>(
    globals: Seq<Seq<E>>,
    locals: Seq<Seq<(Target, E)>>,
    nexts: Seq<Option<(Target, E)>>,
)
    requires
        globals.len() == nexts.len() + 1,
        locals.len() == nexts.len() + 1,
        globals[0].len() == 0,
        forall|k: int|
            0 <= k < nexts.len() ==> #[trigger] queue_next_step(
                globals[k],
                locals[k],
                nexts[k],
                globals[k + 1],
                locals[k + 1],
            ),
    ensures
        forall|k: int|
            0 <= k < nexts.len() ==> #[trigger] nexts[k] == (if k < locals[0].len() {
                Some(locals[0][k])
            } else {
                None
            }),
        globals.last().len() == 0,
        locals.last() == locals[0].skip(
            if nexts.len() < locals[0].len() {
                nexts.len() as int
            } else {
                locals[0].len() as int
            },
        ),
    decreases nexts.len(),
{
    if nexts.len() > 0 {
        let n = nexts.len() - 1;
        let gs = globals.drop_last();
        let ls = locals.drop_last();
        let ns = nexts.drop_last();
        assert forall|k: int| 0 <= k < ns.len() implies #[trigger] queue_next_step(
            gs[k],
            ls[k],
            ns[k],
            gs[k + 1],
            ls[k + 1],
        ) by {
            assert(queue_next_step(globals[k], locals[k], nexts[k], globals[k + 1], locals[k + 1]));
        }
        law_queue_fifo_run(gs, ls, ns);
        assert(queue_next_step(globals[n], locals[n], nexts[n], globals[n + 1], locals[n + 1]));
        assert(gs.last() == globals[n]);
        assert(ls.last() == locals[n]);
        let l0 = locals[0];
        if n < l0.len() {
            assert(locals[n][0] == l0[n]);
            assert(locals[n].drop_first() =~= l0.skip(n + 1));
        }
        assert forall|k: int| 0 <= k < nexts.len() implies #[trigger] nexts[k] == (if k < l0.len() {
            Some(l0[k])
        } else {
            None
        }) by {
            if k < n {
                assert(ns[k] == nexts[k]);
            }
        }
    } else {
        assert(locals[0].skip(0) =~= locals[0]);
    }
}

} // verus!
