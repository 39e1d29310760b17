use std::collections::HashMap;

use vstd::prelude::*;

use crate::resources::id::WidgetId;
use crate::property::{PropChange, Property};
use crate::input::ElementState;

verus! {

broadcast use vstd::std_specs::hash::group_hash_axioms;

/// The keys that the library itself reacts to; every other key is carried by its code.
#[derive(Copy, Clone, Debug, PartialEq, Eq, Structural)]
pub enum VirtualKeyCode {
    Escape,
    F1,
    F2,
    F3,
    F4,
    P,
    Tab,
    Other(u32),
}

/// A character typed on the keyboard.
#[derive(Copy, Clone, Debug, PartialEq, Eq, Structural)]
pub struct ReceivedCharacter(pub char);

/// A key press or release, with its scan code and virtual key code.
#[derive(Copy, Clone, Debug, PartialEq, Eq, Structural)]
pub struct KeyboardInput(pub ElementState, pub u32, pub Option<VirtualKeyCode>);

/// A key press or release, delivered to the focused widget.
#[derive(Copy, Clone, Debug, PartialEq, Eq, Structural)]
pub struct WidgetKeyboardInput(pub ElementState, pub u32, pub Option<VirtualKeyCode>);

/// A character, delivered to the focused widget.
#[derive(Copy, Clone, Debug, PartialEq, Eq, Structural)]
pub struct WidgetReceivedCharacter(pub char);

/// Input handled by the `FocusHandler`.
#[derive(Copy, Clone, Debug, PartialEq, Eq, Structural)]
pub enum KeyboardInputEvent {
    AddFocusable(WidgetId),
    RemoveFocusable(WidgetId),
    FocusChange(Option<WidgetId>),
    KeyboardInput(KeyboardInput),
    ReceivedCharacter(ReceivedCharacter),
}

/// An event that the `FocusHandler` sends to a widget's subtree.
#[derive(Copy, Clone, Debug, PartialEq, Eq, Structural)]
pub enum FocusAction {
    /// Send a property change to the widget and its descendants.
    PropChange(WidgetId, PropChange),
    /// Forward a key press or release to the widget and its descendants.
    KeyboardInput(WidgetId, WidgetKeyboardInput),
    /// Forward a typed character to the widget and its descendants.
    ReceivedCharacter(WidgetId, WidgetReceivedCharacter),
}

/// The focusable widgets, ordered by the index at which they were registered:
/// a `stable_bst::TreeMap` from focus index to widget index.
#[verifier::external_body]
pub struct FocusOrder {
    tree: stable_bst::TreeMap<usize, usize>,
}

/// The entries of a `FocusOrder`: focus index to widget index.
pub uninterp spec fn focus_order_entries(order: FocusOrder) -> Map<usize, usize>;

/// Calls `stable_bst::TreeMap::new`: the map starts empty.
#[verifier::external_body]
fn focus_order_new() -> (order: FocusOrder)
    ensures
        focus_order_entries(order) =~= Map::empty(),
{
    FocusOrder { tree: stable_bst::TreeMap::new() }
}

/// Calls `stable_bst::TreeMap::insert`: the key now maps to the value, and the
/// value it held before, if any, is returned.
#[verifier::external_body]
fn focus_order_insert(order: &mut FocusOrder, key: usize, value: usize) -> (prev: Option<usize>)
    ensures
        focus_order_entries(*final(order)) == focus_order_entries(*old(order)).insert(key, value),
        prev == (if focus_order_entries(*old(order)).contains_key(key) {
            Some(focus_order_entries(*old(order))[key])
        } else {
            None
        }),
{
    order.tree.insert(key, value)
}

/// Calls `stable_bst::TreeMap::remove`: the key is gone, and the value it held, if any, is returned.
#[verifier::external_body]
fn focus_order_remove(order: &mut FocusOrder, key: usize) -> (prev: Option<usize>)
    ensures
        focus_order_entries(*final(order)) == focus_order_entries(*old(order)).remove(key),
        prev == (if focus_order_entries(*old(order)).contains_key(key) {
            Some(focus_order_entries(*old(order))[key])
        } else {
            None
        }),
{
    order.tree.remove(&key)
}

/// `key` is the smallest key of `m` that is greater than `lo`.
pub open spec fn is_least_key_above(m: Map<usize, usize>, lo: int, key: usize) -> bool {
    &&& m.contains_key(key)
    &&& key > lo
    &&& forall|k: usize| #[trigger] m.contains_key(k) && k > lo ==> key <= k
}

/// `m` has a key greater than `lo`.
pub open spec fn has_key_above(m: Map<usize, usize>, lo: int) -> bool {
    exists|k: usize| #[trigger] m.contains_key(k) && k > lo
}

/// Calls `stable_bst::TreeMap::range(Excluded(&key), Unbounded).next()`, which yields the entry
/// with the smallest key greater than `key`, or nothing when there is none.
#[verifier::external_body]
fn focus_order_next_after(order: &FocusOrder, key: usize) -> (next: Option<(usize, usize)>)
    ensures
        next is None <==> !has_key_above(focus_order_entries(*order), key as int),
        next matches Some((k, v)) ==> is_least_key_above(focus_order_entries(*order), key as int, k)
            && v == focus_order_entries(*order)[k],
{
    order.tree.range(stable_bst::Bound::Excluded(&key), stable_bst::Bound::Unbounded).next().map(
        |(k, v)| (*k, *v),
    )
}

/// Calls `stable_bst::TreeMap::iter().next()`, which yields the entry with the smallest key,
/// or nothing when the map is empty.
#[verifier::external_body]
fn focus_order_first(order: &FocusOrder) -> (first: Option<(usize, usize)>)
    ensures
        first is None <==> !has_key_above(focus_order_entries(*order), -1),
        first matches Some((k, v)) ==> is_least_key_above(focus_order_entries(*order), -1, k) && v
            == focus_order_entries(*order)[k],
{
    order.tree.iter().next().map(|(k, v)| (*k, *v))
}

/// The widget at the least key of `m` above `lo`, if there is such a key.
pub open spec fn least_above(m: Map<usize, usize>, lo: int) -> Option<WidgetId> {
    if has_key_above(m, lo) {
        Some(WidgetId(m[choose|k: usize| #[trigger] is_least_key_above(m, lo, k)]))
    } else {
        None
    }
}

/// The events sent when focus moves from `old` to `new`: the old widget loses
/// the `Focused` property, then the new one gains it; nothing if focus stays.
pub open spec fn focus_change_actions(old: Option<WidgetId>, new: Option<WidgetId>) -> Seq<FocusAction> {
    if new == old {
        Seq::empty()
    } else {
        let removed = match old {
            Some(w) => seq![FocusAction::PropChange(w, PropChange::Remove(Property::Focused))],
            None => Seq::empty(),
        };
        let added = match new {
            Some(w) => seq![FocusAction::PropChange(w, PropChange::Add(Property::Focused))],
            None => Seq::empty(),
        };
        removed + added
    }
}

proof fn lemma_least_key_unique(m: Map<usize, usize>, lo: int, a: usize, b: usize)
    requires
        is_least_key_above(m, lo, a),
        is_least_key_above(m, lo, b),
    ensures
        a == b,
{
}

/// Tracks the keyboard focus.
///
/// The tab key iterates through the widgets that have registered as focusable,
/// in the order they registered; after the last one it returns to the first.
pub struct FocusHandler {
    focusable_map: HashMap<usize, usize>,
    focusable: FocusOrder,
    focused: Option<WidgetId>,
    focus_index_max: usize,
}

impl FocusHandler {
    /// Focusable widgets by registration: focus index to widget index.
    pub closed spec fn focusables(&self) -> Map<usize, usize> {
        focus_order_entries(self.focusable)
    }

    /// The focus index each registered widget holds: widget index to focus index.
    pub closed spec fn registered(&self) -> Map<usize, usize> {
        self.focusable_map@
    }

    /// The focused widget, if any.
    pub closed spec fn focused(&self) -> Option<WidgetId> {
        self.focused
    }

    /// The focus index the next registered widget receives.
    pub closed spec fn next_index(&self) -> usize {
        self.focus_index_max
    }

    /// Each registered widget is found at its focus index, and every focus index
    /// is below the next one to be given out.
    pub open spec fn wf(&self) -> bool {
        &&& forall|w: usize| #[trigger]
            self.registered().contains_key(w) ==> {
                &&& self.focusables().contains_key(self.registered()[w])
                &&& self.focusables()[self.registered()[w]] == w
            }
        &&& forall|i: usize| #[trigger] self.focusables().contains_key(i) ==> i < self.next_index()
    }

    /// The widget that the tab key moves focus to: the next registered widget after
    /// the focused one, or the first registered widget when there is no next one
    /// or nothing is focused.
    pub open spec fn tab_target(&self) -> Option<WidgetId> {
        let from: int = match self.focused() {
            Some(w) => self.registered()[w.0] as int,
            None => -1,
        };
        if has_key_above(self.focusables(), from) {
            least_above(self.focusables(), from)
        } else {
            least_above(self.focusables(), -1)
        }
    }

    pub fn new() -> (h: Self)
        ensures
            h.wf(),
            h.focusables() == Map::<usize, usize>::empty(),
            h.registered() == Map::<usize, usize>::empty(),
            h.focused() is None,
            h.next_index() == 0,
    {
        FocusHandler {
            focusable_map: HashMap::new(),
            focusable: focus_order_new(),
            focused: None,
            focus_index_max: 0,
        }
    }

    fn set_focus(&mut self, new_focus: Option<WidgetId>, actions: &mut Vec<FocusAction>)
        ensures
            final(self).focused() == new_focus,
            final(self).focusables() == old(self).focusables(),
            final(self).registered() == old(self).registered(),
            final(self).next_index() == old(self).next_index(),
            final(actions)@ == old(actions)@ + focus_change_actions(old(self).focused(), new_focus),
    {
        if new_focus != self.focused {
            if let Some(focused) = self.focused {
                actions.push(FocusAction::PropChange(focused, PropChange::Remove(Property::Focused)));
            }
            self.focused = new_focus;
            if let Some(focused) = self.focused {
                actions.push(FocusAction::PropChange(focused, PropChange::Add(Property::Focused)));
            }
        }
        proof {
            let o = old(self).focused();
            if new_focus != o {
                assert(final(actions)@ =~= old(actions)@ + focus_change_actions(o, new_focus));
            } else {
                assert(final(actions)@ =~= old(actions)@ + focus_change_actions(o, new_focus));
            }
        }
    }

    /// The state and the events that `handle` gives for `event`.
    pub open spec fn handle_ensures(
        old_h: FocusHandler,
        new_h: FocusHandler,
        event: KeyboardInputEvent,
        actions: Seq<FocusAction>,
    ) -> bool {
        match event {
            KeyboardInputEvent::AddFocusable(w) => {
                let focused = if old_h.focused() is None {
                    Some(w)
                } else {
                    old_h.focused()
                };
                &&& new_h.focusables() == old_h.focusables().insert(old_h.next_index(), w.0)
                &&& new_h.registered() == old_h.registered().insert(w.0, old_h.next_index())
                &&& new_h.next_index() == old_h.next_index() + 1
                &&& new_h.focused() == focused
                &&& actions == focus_change_actions(old_h.focused(), focused)
            },
            KeyboardInputEvent::RemoveFocusable(w) => {
                let focused = if old_h.focused() == Some(w) {
                    None
                } else {
                    old_h.focused()
                };
                &&& new_h.focusables() == old_h.focusables().remove(old_h.registered()[w.0])
                &&& new_h.registered() == old_h.registered().remove(w.0)
                &&& new_h.next_index() == old_h.next_index()
                &&& new_h.focused() == focused
                &&& actions == focus_change_actions(old_h.focused(), focused)
            },
            KeyboardInputEvent::FocusChange(new_focus) => {
                &&& new_h.focusables() == old_h.focusables()
                &&& new_h.registered() == old_h.registered()
                &&& new_h.next_index() == old_h.next_index()
                &&& new_h.focused() == new_focus
                &&& actions == focus_change_actions(old_h.focused(), new_focus)
            },
            KeyboardInputEvent::KeyboardInput(KeyboardInput(state, scan_code, key)) => {
                &&& new_h.focusables() == old_h.focusables()
                &&& new_h.registered() == old_h.registered()
                &&& new_h.next_index() == old_h.next_index()
                &&& new_h.focused() == old_h.focused()
                &&& actions == match old_h.focused() {
                    Some(w) => seq![
                        FocusAction::KeyboardInput(w, WidgetKeyboardInput(state, scan_code, key)),
                    ],
                    None => Seq::empty(),
                }
            },
            KeyboardInputEvent::ReceivedCharacter(ReceivedCharacter(c)) => {
                &&& new_h.focusables() == old_h.focusables()
                &&& new_h.registered() == old_h.registered()
                &&& new_h.next_index() == old_h.next_index()
                &&& if c == '\t' {
                    &&& new_h.focused() == old_h.tab_target()
                    &&& actions == focus_change_actions(old_h.focused(), old_h.tab_target())
                } else {
                    &&& new_h.focused() == old_h.focused()
                    &&& actions == match old_h.focused() {
                        Some(w) => seq![
                            FocusAction::ReceivedCharacter(w, WidgetReceivedCharacter(c)),
                        ],
                        None => Seq::empty(),
                    }
                }
            },
        }
    }

    /// What `handle` needs: a widget that is removed, or that is focused when tab is
    /// pressed, must be registered, and focus indices must not be exhausted.
    pub open spec fn handle_requires(&self, event: KeyboardInputEvent) -> bool {
        match event {
            KeyboardInputEvent::AddFocusable(_) => self.next_index() < usize::MAX,
            KeyboardInputEvent::RemoveFocusable(w) => self.registered().contains_key(w.0),
            KeyboardInputEvent::ReceivedCharacter(ReceivedCharacter(c)) => c == '\t'
                ==> match self.focused() {
                Some(w) => self.registered().contains_key(w.0),
                None => true,
            },
            _ => true,
        }
    }

    /// Handles one keyboard or focus event, returning the events to send to widgets.
    pub fn handle(&mut self, event: &KeyboardInputEvent) -> (actions: Vec<FocusAction>)
        requires
            old(self).wf(),
            old(self).handle_requires(*event),
        ensures
            final(self).wf(),
            Self::handle_ensures(*old(self), *final(self), *event, actions@),
    {
        let mut actions: Vec<FocusAction> = Vec::new();
        match event {
            KeyboardInputEvent::AddFocusable(widget_id) => {
                let index = self.focus_index_max;
                focus_order_insert(&mut self.focusable, index, widget_id.0);
                self.focusable_map.insert(widget_id.0, index);
                self.focus_index_max = index + 1;
                if self.focused.is_none() {
                    self.set_focus(Some(*widget_id), &mut actions);
                }
                proof {
                    let o = old(self);
                    assert forall|w: usize| #[trigger]
                        self.registered().contains_key(w) implies {
                            &&& self.focusables().contains_key(self.registered()[w])
                            &&& self.focusables()[self.registered()[w]] == w
                        } by {
                        if w != widget_id.0 {
                            assert(o.registered().contains_key(w));
                            assert(o.focusables().contains_key(o.registered()[w]));
                        }
                    }
                }
            },
            KeyboardInputEvent::RemoveFocusable(widget_id) => {
                if let Some(focused) = self.focused {
                    if focused == *widget_id {
                        self.set_focus(None, &mut actions);
                    }
                }
                let index = self.focusable_map.remove(&widget_id.0);
                match index {
                    Some(index) => {
                        focus_order_remove(&mut self.focusable, index);
                    },
                    None => {},
                }
                proof {
                    let o = old(self);
                    let wi = o.registered()[widget_id.0];
                    assert forall|w: usize| #[trigger]
                        self.registered().contains_key(w) implies {
                            &&& self.focusables().contains_key(self.registered()[w])
                            &&& self.focusables()[self.registered()[w]] == w
                        } by {
                        assert(o.registered().contains_key(w));
                        assert(o.focusables().contains_key(o.registered()[w]));
                        assert(o.focusables()[wi] == widget_id.0);
                    }
                }
            },
            KeyboardInputEvent::FocusChange(new_focus) => {
                self.set_focus(*new_focus, &mut actions);
            },
            KeyboardInputEvent::KeyboardInput(key_input) => {
                if let Some(focused) = self.focused {
                    let KeyboardInput(state, scan_code, maybe_keycode) = *key_input;
                    actions.push(
                        FocusAction::KeyboardInput(
                            focused,
                            WidgetKeyboardInput(state, scan_code, maybe_keycode),
                        ),
                    );
                }
            },
            KeyboardInputEvent::ReceivedCharacter(received_char) => {
                let ReceivedCharacter(c) = *received_char;
                if c == '\t' {
                    let ghost target = self.tab_target();
                    let mut new_focus: Option<WidgetId> = None;
                    if let Some(focused) = self.focused {
                        let index = *self.focusable_map.get(&focused.0).unwrap();
                        if let Some((k, v)) = focus_order_next_after(&self.focusable, index) {
                            proof {
                                let m = self.focusables();
                                let c = choose|k: usize| #[trigger] is_least_key_above(m, index as int, k);
                                lemma_least_key_unique(m, index as int, k, c);
                            }
                            new_focus = Some(WidgetId(v));
                        }
                    }
                    if new_focus.is_none() {
                        if let Some((k, v)) = focus_order_first(&self.focusable) {
                            proof {
                                let m = self.focusables();
                                let c = choose|k: usize| #[trigger] is_least_key_above(m, -1, k);
                                lemma_least_key_unique(m, -1, k, c);
                            }
                            new_focus = Some(WidgetId(v));
                        }
                    }
                    assert(new_focus == target);
                    self.set_focus(new_focus, &mut actions);
                } else if let Some(focused) = self.focused {
                    actions.push(FocusAction::ReceivedCharacter(focused, WidgetReceivedCharacter(c)));
                }
            },
        }
        proof {
            assert(actions@ =~= Seq::empty() + actions@);
        }
        actions
    }
}

} // verus!

verus! {

/// Tab moves focus from a registered widget to the widget registered next after it.
pub proof fn law_tab_moves_to_next(h: FocusHandler, w: WidgetId, k: usize)
    requires
        h.wf(),
        h.focused() == Some(w),
        h.registered().contains_key(w.0),
        is_least_key_above(h.focusables(), h.registered()[w.0] as int, k),
    ensures
        h.tab_target() == Some(WidgetId(h.focusables()[k])),
{
    let m = h.focusables();
    let lo = h.registered()[w.0] as int;
    assert(has_key_above(m, lo));
    let c = choose|x: usize| #[trigger] is_least_key_above(m, lo, x);
    lemma_least_key_unique(m, lo, k, c);
}

/// Tab from the widget registered last wraps around to the widget registered first.
pub proof fn law_tab_wraps_to_first(h: FocusHandler, w: WidgetId, first: usize)
    requires
        h.wf(),
        h.focused() == Some(w),
        h.registered().contains_key(w.0),
        !has_key_above(h.focusables(), h.registered()[w.0] as int),
        is_least_key_above(h.focusables(), -1, first),
    ensures
        h.tab_target() == Some(WidgetId(h.focusables()[first])),
{
    let m = h.focusables();
    assert(has_key_above(m, -1));
    let c = choose|x: usize| #[trigger] is_least_key_above(m, -1, x);
    lemma_least_key_unique(m, -1, first, c);
}

/// With nothing focused, tab focuses the widget registered first, and nothing
/// when no widget is registered.
pub proof fn law_tab_from_nothing(h: FocusHandler)
    requires
        h.wf(),
        h.focused() is None,
    ensures
        h.tab_target() == least_above(h.focusables(), -1),
        !has_key_above(h.focusables(), -1) ==> h.tab_target() is None,
{
}

/// The registered widget `w` is focusable: its focus index holds it in the focus order.
pub proof fn law_registered_in_order(h: FocusHandler, w: usize)
    requires
        h.wf(),
        h.registered().contains_key(w),
    ensures
        h.focusables().contains_key(h.registered()[w]),
        h.focusables()[h.registered()[w]] == w,
        h.registered()[w] < h.next_index(),
{
}

/// Focus moves tell the old widget first that it lost focus, then the new one
/// that it gained it, and say nothing when focus stays.
pub proof fn law_focus_change_order(old: Option<WidgetId>, new: Option<WidgetId>)
    ensures
        old == new ==> focus_change_actions(old, new).len() == 0,
        old != new && old is Some && new is Some ==> focus_change_actions(old, new) == seq![
            FocusAction::PropChange(old.unwrap(), PropChange::Remove(Property::Focused)),
            FocusAction::PropChange(new.unwrap(), PropChange::Add(Property::Focused)),
        ],
{
    if old != new && old is Some && new is Some {
        assert(focus_change_actions(old, new) =~= seq![
            FocusAction::PropChange(old.unwrap(), PropChange::Remove(Property::Focused)),
            FocusAction::PropChange(new.unwrap(), PropChange::Add(Property::Focused)),
        ]);
    }
}

} // verus!

verus! {

/// `handlers[k + 1]` is `handlers[k]` after it handles `events[k]`, giving `actions[k]`.
pub open spec fn focus_run(
    handlers: Seq<FocusHandler>,
    events: Seq<KeyboardInputEvent>,
    actions: Seq<Seq<FocusAction>>,
) -> bool {
    &&& handlers.len() == events.len() + 1
    &&& actions.len() == events.len()
    &&& forall|k: int|
        0 <= k < events.len() ==> #[trigger] handlers[k].handle_requires(events[k]) && FocusHandler::handle_ensures(
            handlers[k],
            handlers[k + 1],
            events[k],
            actions[k],
        )
}

proof fn lemma_next_index_grows(
    handlers: Seq<FocusHandler>,
    events: Seq<KeyboardInputEvent>,
    actions: Seq<Seq<FocusAction>>,
    p: int,
    q: int,
)
    requires
        focus_run(handlers, events, actions),
        0 <= p <= q <= events.len(),
    ensures
        handlers[p].next_index() <= handlers[q].next_index(),
        p < q && events[p] is AddFocusable ==> handlers[p].next_index() < handlers[q].next_index(),
    decreases q - p,
{
    if p < q {
        lemma_next_index_grows(handlers, events, actions, p + 1, q);
        assert(handlers[p].handle_requires(events[p]));
    }
}

proof fn lemma_focus_index_kept(
    handlers: Seq<FocusHandler>,
    events: Seq<KeyboardInputEvent>,
    actions: Seq<Seq<FocusAction>>,
    i: int,
    a: WidgetId,
    k: int,
)
    requires
        focus_run(handlers, events, actions),
        0 <= i < k <= events.len(),
        events[i] == KeyboardInputEvent::AddFocusable(a),
        forall|m: int| i < m < k ==> events[m] != KeyboardInputEvent::AddFocusable(a),
        handlers[k].registered().contains_key(a.0),
    ensures
        handlers[k].registered()[a.0] == handlers[i].next_index(),
    decreases k - i,
{
    assert(handlers[k - 1].handle_requires(events[k - 1]));
    if k > i + 1 {
        let e = events[k - 1];
        match e {
            KeyboardInputEvent::AddFocusable(w) => {
                assert(w != a);
                assert(w.0 != a.0);
            },
            _ => {},
        }
        lemma_focus_index_kept(handlers, events, actions, i, a, k - 1);
    }
}

/// Tab order follows registration order over any run of events: of two widgets
/// registered at steps `i < j` (and not registered again since) that are both
/// still registered, the earlier holds the smaller focus index, so tab reaches
/// it first (see `law_tab_moves_to_next`).
pub proof fn law_focus_order_follows_registration(
    handlers: Seq<FocusHandler>,
    events: Seq<KeyboardInputEvent>,
    actions: Seq<Seq<FocusAction>>,
    i: int,
    j: int,
    a: WidgetId,
    b: WidgetId,
)
    requires
        focus_run(handlers, events, actions),
        0 <= i < j < events.len(),
        events[i] == KeyboardInputEvent::AddFocusable(a),
        events[j] == KeyboardInputEvent::AddFocusable(b),
        forall|k: int| i < k < events.len() ==> events[k] != KeyboardInputEvent::AddFocusable(a),
        forall|k: int| j < k < events.len() ==> events[k] != KeyboardInputEvent::AddFocusable(b),
        handlers.last().registered().contains_key(a.0),
        handlers.last().registered().contains_key(b.0),
    ensures
        handlers.last().registered()[a.0] < handlers.last().registered()[b.0],
{
    let n = events.len() as int;
    assert(handlers.last() == handlers[n]);
    lemma_focus_index_kept(handlers, events, actions, i, a, n);
    lemma_focus_index_kept(handlers, events, actions, j, b, n);
    lemma_next_index_grows(handlers, events, actions, i, j);
}

/// Registering a widget puts it after every widget registered so far, and
/// focuses it only when nothing was focused, with one `Add(Focused)` event;
/// otherwise focus stays and nothing is sent.
pub proof fn law_add_focusable_goes_last(
    h: FocusHandler,
    after: FocusHandler,
    w: WidgetId,
    actions: Seq<FocusAction>,
)
    requires
        h.wf(),
        !h.registered().contains_key(w.0),
        FocusHandler::handle_ensures(h, after, KeyboardInputEvent::AddFocusable(w), actions),
    ensures
        forall|v: usize| #[trigger]
            h.registered().contains_key(v) ==> after.registered().contains_key(v) && after.registered()[v]
                < after.registered()[w.0],
        h.focused() is None ==> after.focused() == Some(w) && actions == seq![
            FocusAction::PropChange(w, PropChange::Add(Property::Focused)),
        ],
        h.focused() is Some ==> after.focused() == h.focused() && actions.len() == 0,
{
    assert forall|v: usize| #[trigger] h.registered().contains_key(v) implies after.registered().contains_key(v)
        && after.registered()[v] < after.registered()[w.0] by {
        assert(h.focusables().contains_key(h.registered()[v]));
    }
    if h.focused() is None {
        assert(actions =~= seq![FocusAction::PropChange(w, PropChange::Add(Property::Focused))]);
    }
}

} // verus!
