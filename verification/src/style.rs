use std::collections::HashMap;

use linked_hash_map::LinkedHashMap;
use vstd::prelude::*;

use crate::property::{prop_subset, PropSet};
use crate::resources::id::WidgetId;

verus! {

broadcast use vstd::std_specs::hash::group_hash_axioms;

/// A map from `linked_hash_map` that remembers the order in which keys were last inserted.
#[verifier::external_type_specification]
#[verifier::external_body]
#[verifier::reject_recursive_types(K)]
#[verifier::reject_recursive_types(V)]
#[verifier::reject_recursive_types(S)]
pub struct ExLinkedHashMap<K, V, S>(LinkedHashMap<K, V, S>);

/// The entries of a selector map, oldest insertion first.
pub uninterp spec fn selector_entries(m: LinkedHashMap<PropSet, usize>) -> Seq<(PropSet, usize)>;

/// No key appears twice among `entries`.
pub open spec fn distinct_keys(entries: Seq<(PropSet, usize)>) -> bool {
    forall|i: int, j: int| 0 <= i < j < entries.len() ==> entries[i].0 != entries[j].0
}

/// `entries` with the entry for `key`, if any, taken out.
pub open spec fn without_key(entries: Seq<(PropSet, usize)>, key: PropSet) -> Seq<(PropSet, usize)> {
    entries.filter(other_key(key))
}

/// Whether an entry belongs to a key other than `key`.
pub open spec fn other_key(key: PropSet) -> spec_fn((PropSet, usize)) -> bool {
    |e: (PropSet, usize)| e.0 != key
}

/// Calls `LinkedHashMap::new`: the map starts empty.
#[verifier::external_body]
fn selector_map_new() -> (m: LinkedHashMap<PropSet, usize>)
    ensures
        selector_entries(m) == Seq::<(PropSet, usize)>::empty(),
{
    LinkedHashMap::new()
}

/// Calls `LinkedHashMap::insert`: the entry for `key` now holds `value` and comes
/// last in the order (an entry already there is moved to the end); the value it
/// held before, if any, is returned. Keys stay distinct.
#[verifier::external_body]
fn selector_map_insert(m: &mut LinkedHashMap<PropSet, usize>, key: PropSet, value: usize) -> (prev: Option<usize>)
    ensures
        selector_entries(*final(m)) == without_key(selector_entries(*old(m)), key).push((key, value)),
        distinct_keys(selector_entries(*old(m))) ==> distinct_keys(selector_entries(*final(m))),
        prev is None <==> forall|i: int|
            0 <= i < selector_entries(*old(m)).len() ==> #[trigger] selector_entries(*old(m))[i].0 != key,
        prev matches Some(v) ==> exists|i: int|
            0 <= i < selector_entries(*old(m)).len() && #[trigger] selector_entries(*old(m))[i] == (key, v),
{
    m.insert(key, value)
}

/// Calls `LinkedHashMap::iter` and collects the entries in order.
#[verifier::external_body]
fn selector_map_entries(m: &LinkedHashMap<PropSet, usize>) -> (entries: Vec<(PropSet, usize)>)
    ensures
        entries@ == selector_entries(*m),
{
    m.iter().map(|(k, v)| (*k, *v)).collect()
}

proof fn lemma_without_key(entries: Seq<(PropSet, usize)>, key: PropSet)
    ensures
        forall|i: int|
            0 <= i < without_key(entries, key).len() ==> (#[trigger] without_key(entries, key)[i]).0 != key
                && entries.contains(without_key(entries, key)[i]),
        forall|j: int|
            0 <= j < entries.len() && (#[trigger] entries[j]).0 != key ==> without_key(entries, key).contains(
                entries[j],
            ),
{
    let pred = other_key(key);
    let kept = entries.filter(pred);
    assert forall|i: int| 0 <= i < kept.len() implies (#[trigger] kept[i]).0 != key && entries.contains(kept[i]) by {
        entries.lemma_filter_pred(pred, i);
        assert(kept.contains(kept[i]));
        entries.lemma_filter_contains_rev(pred, kept[i]);
    }
    assert forall|j: int| 0 <= j < entries.len() && (#[trigger] entries[j]).0 != key implies kept.contains(
        entries[j],
    ) by {
        assert(pred(entries[j]));
        entries.lemma_filter_contains(pred, j);
    }
}

/// A style that can be layered over another; users implement it for their styles.
pub trait ComponentStyle: Sized + Clone {
    type Component;

    /// This style layered over `lower`. Unless a style says otherwise, the upper
    /// style wins whole, as it does for a component used as its own style.
    open spec fn merged(&self, lower: &Self) -> Self {
        *self
    }

    fn merge(&self, other: &Self) -> (m: Self)
        ensures
            m == self.merged(other),
    ;

    fn component(self) -> Self::Component;
}

/// A drawable state that has a name; users implement it.
pub trait Component: Clone {
    fn name() -> String;
}

/// The position of the first entry of `entries` whose properties are all in `props`.
pub open spec fn first_subset(entries: Seq<(PropSet, usize)>, props: PropSet) -> Option<int>
    decreases entries.len(),
{
    if entries.len() == 0 {
        None
    } else if prop_subset(entries[0].0, props) {
        Some(0)
    } else {
        match first_subset(entries.drop_first(), props) {
            Some(i) => Some(i + 1),
            None => None,
        }
    }
}

proof fn lemma_first_subset(entries: Seq<(PropSet, usize)>, props: PropSet, i: int)
    requires
        0 <= i <= entries.len(),
        forall|j: int| 0 <= j < i ==> !prop_subset(#[trigger] entries[j].0, props),
    ensures
        i < entries.len() && prop_subset(entries[i].0, props) ==> first_subset(entries, props) == Some(i),
        i == entries.len() ==> first_subset(entries, props) is None,
    decreases i,
{
    if i > 0 {
        assert(!prop_subset(entries[0].0, props));
        let rest = entries.drop_first();
        assert forall|j: int| 0 <= j < i - 1 implies !prop_subset(#[trigger] rest[j].0, props) by {
            assert(rest[j] == entries[j + 1]);
        }
        lemma_first_subset(rest, props, i - 1);
        if i < entries.len() {
            assert(rest[i - 1] == entries[i]);
        }
    } else if entries.len() == 0 {
    }
}

/// The entry of `entries` that applies to a widget with properties `props`: the
/// entry whose properties are exactly `props` if there is one, else the first
/// entry whose properties are all in `props`.
pub open spec fn selected_entry(entries: Seq<(PropSet, usize)>, props: PropSet) -> Option<int> {
    if exists|i: int| 0 <= i < entries.len() && #[trigger] entries[i].0 == props {
        Some(choose|i: int| 0 <= i < entries.len() && #[trigger] entries[i].0 == props)
    } else {
        first_subset(entries, props)
    }
}

/// The style that the selected entry puts over `lower`, if an entry applies.
pub open spec fn select_over_style<S: ComponentStyle>(
    entries: Seq<(PropSet, usize)>,
    styles: Seq<S>,
    lower: S,
    props: PropSet,
) -> Option<S> {
    match selected_entry(entries, props) {
        Some(i) => Some(styles[entries[i].1 as int].merged(&lower)),
        None => None,
    }
}

/// `style` with the selected entry's style put over it; `style` itself when no
/// entry applies.
pub open spec fn select_style<S: ComponentStyle>(
    entries: Seq<(PropSet, usize)>,
    styles: Seq<S>,
    style: S,
    props: PropSet,
) -> S {
    match select_over_style(entries, styles, style, props) {
        Some(s) => s,
        None => style,
    }
}

/// Styles chosen by the properties of a widget, remembered in the order they were registered.
pub struct Selector<S> {
    map: LinkedHashMap<PropSet, usize>,
    styles: Vec<S>,
}

impl<S: ComponentStyle> Selector<S> {
    /// The entries, oldest first: properties and the position of their style.
    pub closed spec fn entries(&self) -> Seq<(PropSet, usize)> {
        selector_entries(self.map)
    }

    /// The registered styles.
    pub closed spec fn styles(&self) -> Seq<S> {
        self.styles@
    }

    /// Each property set appears once and refers to a stored style.
    pub open spec fn wf(&self) -> bool {
        &&& distinct_keys(self.entries())
        &&& forall|i: int| 0 <= i < self.entries().len() ==> #[trigger] self.entries()[i].1 < self.styles().len()
    }

    /// The style registered for each property set.
    pub open spec fn style_for(&self, props: PropSet) -> Option<S> {
        if exists|i: int| 0 <= i < self.entries().len() && #[trigger] self.entries()[i].0 == props {
            let i = choose|i: int| 0 <= i < self.entries().len() && #[trigger] self.entries()[i].0 == props;
            Some(self.styles()[self.entries()[i].1 as int])
        } else {
            None
        }
    }

    pub fn new() -> (s: Self)
        ensures
            s.wf(),
            s.entries() == Seq::<(PropSet, usize)>::empty(),
            s.styles() == Seq::<S>::empty(),
    {
        Selector { map: selector_map_new(), styles: Vec::new() }
    }

    fn position(&self, props: &PropSet) -> (pos: Option<usize>)
        requires
            self.wf(),
        ensures
            pos is None <==> !(exists|i: int| 0 <= i < self.entries().len() && #[trigger] self.entries()[i].0 == *props),
            pos matches Some(i) ==> i < self.entries().len() && self.entries()[i as int].0 == *props,
    {
        let entries = selector_map_entries(&self.map);
        let mut i: usize = 0;
        while i < entries.len()
            invariant
                entries@ == self.entries(),
                i <= entries@.len(),
                forall|j: int| 0 <= j < i ==> entries@[j].0 != *props,
            decreases entries@.len() - i,
        {
            if entries[i].0 == *props {
                return Some(i);
            }
            i = i + 1;
        }
        None
    }

    /// Registers `style` for the property set `props`; registering again for the
    /// same set replaces the style and makes the set the most recent.
    pub fn insert(&mut self, props: PropSet, style: S)
        requires
            old(self).wf(),
        ensures
            final(self).wf(),
            final(self).entries() == without_key(old(self).entries(), props).push((props, old(self).styles().len() as usize)),
            final(self).styles() == old(self).styles().push(style),
            final(self).style_for(props) == Some(style),
            forall|p: PropSet| p != props ==> #[trigger] final(self).style_for(p) == old(self).style_for(p),
    {
        let ghost old_entries = self.entries();
        let n = self.styles.len();
        self.styles.push(style);
        selector_map_insert(&mut self.map, props, n);
        proof {
            let e = self.entries();
            let kept = without_key(old_entries, props);
            let new_styles = self.styles();
            lemma_without_key(old_entries, props);
            assert(e =~= kept.push((props, n)));
            assert forall|i: int| 0 <= i < kept.len() implies #[trigger] e[i] == kept[i] by {
                assert(e[i] == kept.push((props, n))[i]);
            }
            assert(e[kept.len() as int] == (props, n));
            assert forall|i: int| 0 <= i < e.len() implies #[trigger] e[i].1 < new_styles.len() by {
                if i < kept.len() {
                    assert(e[i] == kept[i]);
                    assert(kept[i].0 != props);
                    assert(old_entries.contains(kept[i]));
                    let j = choose|j: int| 0 <= j < old_entries.len() && old_entries[j] == kept[i];
                    assert(old_entries[j].1 < old(self).styles().len());
                }
            }
            assert(e[kept.len() as int].0 == props);
            let i = choose|i: int| 0 <= i < e.len() && #[trigger] e[i].0 == props;
            if i < kept.len() {
                assert(e[i] == kept[i]);
                assert(kept[i].0 != props);
            }
            assert(i == kept.len());
            assert(new_styles[n as int] == style);
            assert forall|p: PropSet| p != props implies #[trigger] self.style_for(p) == old(self).style_for(p) by {
                if exists|i: int| 0 <= i < e.len() && #[trigger] e[i].0 == p {
                    let i = choose|i: int| 0 <= i < e.len() && #[trigger] e[i].0 == p;
                    assert(i < kept.len());
                    assert(e[i] == kept[i]);
                    assert(kept[i].0 != props);
                    assert(old_entries.contains(kept[i]));
                    let j = choose|j: int| 0 <= j < old_entries.len() && old_entries[j] == kept[i];
                    assert(old_entries[j].0 == p);
                    let j2 = choose|j: int| 0 <= j < old_entries.len() && #[trigger] old_entries[j].0 == p;
                    assert(j == j2);
                    assert(old_entries[j].1 < old(self).styles().len());
                    assert(new_styles[old_entries[j].1 as int] == old(self).styles()[old_entries[j].1 as int]);
                } else {
                    if exists|j: int| 0 <= j < old_entries.len() && #[trigger] old_entries[j].0 == p {
                        let j = choose|j: int| 0 <= j < old_entries.len() && #[trigger] old_entries[j].0 == p;
                        assert(kept.contains(old_entries[j]));
                        let k = choose|k: int| 0 <= k < kept.len() && kept[k] == old_entries[j];
                        assert(e[k] == kept[k]);
                        assert(e[k].0 == p);
                        assert(false);
                    }
                }
            }
        }
    }

    /// The style selected by `props`, put over `lower`; `None` when no entry applies.
    pub fn select_over(&self, lower: &S, props: &PropSet) -> (r: Option<S>)
        requires
            self.wf(),
        ensures
            r == select_over_style(self.entries(), self.styles(), *lower, *props),
    {
        let entries = selector_map_entries(&self.map);
        match self.position(props) {
            Some(i) => {
                let ghost c = choose|k: int| 0 <= k < entries@.len() && #[trigger] entries@[k].0 == *props;
                assert(c == i as int);
                Some(self.styles[entries[i].1].merge(lower))
            },
            None => {
                let mut i: usize = 0;
                while i < entries.len()
                    invariant
                        entries@ == self.entries(),
                        self.wf(),
                        i <= entries@.len(),
                        !(exists|k: int| 0 <= k < entries@.len() && #[trigger] entries@[k].0 == *props),
                        forall|j: int| 0 <= j < i ==> !prop_subset(#[trigger] entries@[j].0, *props),
                    decreases entries@.len() - i,
                {
                    if entries[i].0.is_subset(props) {
                        proof {
                            lemma_first_subset(entries@, *props, i as int);
                        }
                        return Some(self.styles[entries[i].1].merge(lower));
                    }
                    i = i + 1;
                }
                proof {
                    lemma_first_subset(entries@, *props, i as int);
                }
                None
            },
        }
    }

    /// Layers the style selected by `props` over `style`: the style registered for
    /// exactly `props`, else the first registered whose properties are all in
    /// `props`; `style` is kept when none applies.
    pub fn select(&self, style: S, props: &PropSet) -> (s: S)
        requires
            self.wf(),
        ensures
            s == select_style(self.entries(), self.styles(), style, *props),
    {
        match self.select_over(&style, props) {
            Some(s) => s,
            None => style,
        }
    }
}

/// No class name appears twice among `entries`.
pub open spec fn class_names_distinct<T>(entries: Seq<(String, T)>) -> bool {
    forall|i: int, j: int| 0 <= i < j < entries.len() ==> entries[i].0@ != entries[j].0@
}

/// What `entries` holds for the class named `class`.
pub open spec fn class_lookup<T>(entries: Seq<(String, T)>, class: Seq<char>) -> Option<T> {
    if exists|i: int| 0 <= i < entries.len() && #[trigger] entries[i].0@ == class {
        let i = choose|i: int| 0 <= i < entries.len() && #[trigger] entries[i].0@ == class;
        Some(entries[i].1)
    } else {
        None
    }
}

/// The position of the entry for `class`, if there is one.
fn class_position<T>(entries: &Vec<(String, T)>, class: &String) -> (pos: Option<usize>)
    ensures
        pos is None <==> !(exists|i: int| 0 <= i < entries@.len() && #[trigger] entries@[i].0@ == class@),
        pos matches Some(i) ==> i < entries@.len() && entries@[i as int].0@ == class@,
{
    let mut i: usize = 0;
    while i < entries.len()
        invariant
            i <= entries@.len(),
            forall|j: int| 0 <= j < i ==> #[trigger] entries@[j].0@ != class@,
        decreases entries@.len() - i,
    {
        if entries[i].0 == *class {
            return Some(i);
        }
        i = i + 1;
    }
    None
}

proof fn lemma_class_lookup_at<T>(entries: Seq<(String, T)>, i: int)
    requires
        class_names_distinct(entries),
        0 <= i < entries.len(),
    ensures
        class_lookup(entries, entries[i].0@) == Some(entries[i].1),
{
    let c = choose|k: int| 0 <= k < entries.len() && #[trigger] entries[k].0@ == entries[i].0@;
    assert(entries[i].0@ == entries[i].0@);
    assert(c == i);
}

proof fn lemma_class_update<T>(entries: Seq<(String, T)>, i: int, entry: (String, T))
    requires
        class_names_distinct(entries),
        0 <= i < entries.len(),
        entries[i].0@ == entry.0@,
    ensures
        class_names_distinct(entries.update(i, entry)),
        class_lookup(entries.update(i, entry), entry.0@) == Some(entry.1),
        forall|c: Seq<char>| c != entry.0@ ==> #[trigger] class_lookup(entries.update(i, entry), c) == class_lookup(entries, c),
{
    let updated = entries.update(i, entry);
    assert forall|a: int, b: int| 0 <= a < b < updated.len() implies updated[a].0@ != updated[b].0@ by {
        assert(entries[a].0@ != entries[b].0@);
    }
    lemma_class_lookup_at(updated, i);
    assert forall|c: Seq<char>| c != entry.0@ implies #[trigger] class_lookup(updated, c) == class_lookup(entries, c) by {
        if exists|k: int| 0 <= k < entries.len() && #[trigger] entries[k].0@ == c {
            let k = choose|k: int| 0 <= k < entries.len() && #[trigger] entries[k].0@ == c;
            assert(k != i);
            assert(updated[k] == entries[k]);
            lemma_class_lookup_at(updated, k);
            lemma_class_lookup_at(entries, k);
        } else {
            if exists|k: int| 0 <= k < updated.len() && #[trigger] updated[k].0@ == c {
                let k = choose|k: int| 0 <= k < updated.len() && #[trigger] updated[k].0@ == c;
                assert(k != i);
                assert(entries[k].0@ == c);
            }
        }
    }
}

proof fn lemma_class_push<T>(entries: Seq<(String, T)>, entry: (String, T))
    requires
        class_names_distinct(entries),
        forall|k: int| 0 <= k < entries.len() ==> #[trigger] entries[k].0@ != entry.0@,
    ensures
        class_names_distinct(entries.push(entry)),
        class_lookup(entries.push(entry), entry.0@) == Some(entry.1),
        forall|c: Seq<char>| c != entry.0@ ==> #[trigger] class_lookup(entries.push(entry), c) == class_lookup(entries, c),
{
    let pushed = entries.push(entry);
    assert forall|a: int, b: int| 0 <= a < b < pushed.len() implies pushed[a].0@ != pushed[b].0@ by {
        if b < entries.len() {
            assert(entries[a].0@ != entries[b].0@);
        } else {
            assert(pushed[a] == entries[a]);
        }
    }
    lemma_class_lookup_at(pushed, entries.len() as int);
    assert forall|c: Seq<char>| c != entry.0@ implies #[trigger] class_lookup(pushed, c) == class_lookup(entries, c) by {
        if exists|k: int| 0 <= k < entries.len() && #[trigger] entries[k].0@ == c {
            let k = choose|k: int| 0 <= k < entries.len() && #[trigger] entries[k].0@ == c;
            assert(pushed[k] == entries[k]);
            lemma_class_lookup_at(pushed, k);
            lemma_class_lookup_at(entries, k);
        } else {
            if exists|k: int| 0 <= k < pushed.len() && #[trigger] pushed[k].0@ == c {
                let k = choose|k: int| 0 <= k < pushed.len() && #[trigger] pushed[k].0@ == c;
                assert(k < entries.len());
                assert(pushed[k] == entries[k]);
            }
        }
    }
}

/// `selector` is `previous` (or an empty selector) after `insert(props, style)`.
pub open spec fn selector_after_insert<S: ComponentStyle>(
    selector: Selector<S>,
    previous: Option<Selector<S>>,
    props: PropSet,
    style: S,
) -> bool {
    let (entries, styles) = match previous {
        Some(p) => (p.entries(), p.styles()),
        None => (Seq::<(PropSet, usize)>::empty(), Seq::<S>::empty()),
    };
    &&& selector.entries() == without_key(entries, props).push((props, styles.len() as usize))
    &&& selector.styles() == styles.push(style)
}

/// The layer that the style of a class or a widget puts over `cur`, the style
/// built so far (`None` while it is still the style of the type).
pub open spec fn layer_over<S: ComponentStyle>(cur: Option<S>, base: S, layer: Option<S>) -> Option<S> {
    match layer {
        Some(l) => Some(l.merged(&current_style(cur, base))),
        None => cur,
    }
}

/// The style built so far: the style of the type until a layer was put over it.
pub open spec fn current_style<S: ComponentStyle>(cur: Option<S>, base: S) -> S {
    match cur {
        Some(s) => s,
        None => base,
    }
}

/// The style that a selector puts over `cur`, if one of its entries applies.
pub open spec fn select_layer<S: ComponentStyle>(
    cur: Option<S>,
    base: S,
    selector: Option<Selector<S>>,
    props: PropSet,
) -> Option<S> {
    match selector {
        Some(sel) => match select_over_style(sel.entries(), sel.styles(), current_style(cur, base), props) {
            Some(s) => Some(s),
            None => cur,
        },
        None => cur,
    }
}

/// The styles of one kind of component: one for the type, one per class and one
/// per widget, and per class and per widget the styles chosen by properties.
pub struct Theme<S> {
    type_style: Option<S>,
    style_classes: Vec<(String, S)>,
    widget_styles: HashMap<usize, S>,
    class_selectors: Vec<(String, Selector<S>)>,
    widget_selectors: HashMap<usize, Selector<S>>,
}

impl<S: ComponentStyle> Theme<S> {
    /// The style of the type, if one was registered.
    pub closed spec fn type_style(&self) -> Option<S> {
        self.type_style
    }

    /// The style registered for a class.
    pub closed spec fn class_style(&self, class: Seq<char>) -> Option<S> {
        class_lookup(self.style_classes@, class)
    }

    /// The style registered for a widget.
    pub closed spec fn widget_style(&self, widget: WidgetId) -> Option<S> {
        if self.widget_styles@.contains_key(widget.0) {
            Some(self.widget_styles@[widget.0])
        } else {
            None
        }
    }

    /// The property selector of a class.
    pub closed spec fn class_selector(&self, class: Seq<char>) -> Option<Selector<S>> {
        class_lookup(self.class_selectors@, class)
    }

    /// The property selector of a widget.
    pub closed spec fn widget_selector(&self, widget: WidgetId) -> Option<Selector<S>> {
        if self.widget_selectors@.contains_key(widget.0) {
            Some(self.widget_selectors@[widget.0])
        } else {
            None
        }
    }

    /// Each class appears once, and every selector is well formed.
    pub closed spec fn wf(&self) -> bool {
        &&& class_names_distinct(self.style_classes@)
        &&& class_names_distinct(self.class_selectors@)
        &&& forall|i: int| 0 <= i < self.class_selectors@.len() ==> (#[trigger] self.class_selectors@[i]).1.wf()
        &&& forall|w: usize| #[trigger] self.widget_selectors@.contains_key(w) ==> self.widget_selectors@[w].wf()
    }

    /// The style layered for a widget of class `class` with properties `props`,
    /// before the style of the type: `None` when no layer applies.
    pub open spec fn layers(&self, class: Option<Seq<char>>, widget: WidgetId, props: PropSet) -> Option<S> {
        let base = self.type_style().unwrap();
        let c1 = match class {
            Some(c) => layer_over(None, base, self.class_style(c)),
            None => None,
        };
        let c2 = match class {
            Some(c) => select_layer(c1, base, self.class_selector(c), props),
            None => c1,
        };
        let c3 = layer_over(c2, base, self.widget_style(widget));
        select_layer(c3, base, self.widget_selector(widget), props)
    }

    /// The styles of the classes are those of `other`.
    pub open spec fn same_class_styles(&self, other: &Self) -> bool {
        forall|c: Seq<char>| #[trigger] self.class_style(c) == other.class_style(c)
    }

    /// The selectors of the classes are those of `other`.
    pub open spec fn same_class_selectors(&self, other: &Self) -> bool {
        forall|c: Seq<char>| #[trigger] self.class_selector(c) == other.class_selector(c)
    }

    /// The styles of the widgets are those of `other`.
    pub open spec fn same_widget_styles(&self, other: &Self) -> bool {
        forall|w: WidgetId| #[trigger] self.widget_style(w) == other.widget_style(w)
    }

    /// The selectors of the widgets are those of `other`.
    pub open spec fn same_widget_selectors(&self, other: &Self) -> bool {
        forall|w: WidgetId| #[trigger] self.widget_selector(w) == other.widget_selector(w)
    }

    /// Registers the style of the type, in place of any registered before.
    pub fn register_type_style(&mut self, style: S)
        requires
            old(self).wf(),
        ensures
            final(self).wf(),
            final(self).type_style() == Some(style),
            final(self).same_class_styles(&*old(self)),
            final(self).same_class_selectors(&*old(self)),
            final(self).same_widget_styles(&*old(self)),
            final(self).same_widget_selectors(&*old(self)),
    {
        self.type_style = Some(style);
    }

    /// Registers the style of a class, in place of any registered before for it.
    pub fn register_style_class(&mut self, class: &str, style: S)
        requires
            old(self).wf(),
        ensures
            final(self).wf(),
            final(self).type_style() == old(self).type_style(),
            final(self).class_style(class@) == Some(style),
            forall|c: Seq<char>| c != class@ ==> #[trigger] final(self).class_style(c) == old(self).class_style(c),
            final(self).same_class_selectors(&*old(self)),
            final(self).same_widget_styles(&*old(self)),
            final(self).same_widget_selectors(&*old(self)),
    {
        let name = String::from_str(class);
        let ghost entries = self.style_classes@;
        match class_position(&self.style_classes, &name) {
            Some(i) => {
                self.style_classes.set(i, (name, style));
                proof {
                    lemma_class_update(entries, i as int, (name, style));
                }
            },
            None => {
                self.style_classes.push((name, style));
                proof {
                    lemma_class_push(entries, (name, style));
                }
            },
        }
    }

    /// Registers the style of a widget, in place of any registered before for it.
    pub fn register_widget_style(&mut self, widget_id: WidgetId, style: S)
        requires
            old(self).wf(),
        ensures
            final(self).wf(),
            final(self).type_style() == old(self).type_style(),
            final(self).same_class_styles(&*old(self)),
            final(self).same_class_selectors(&*old(self)),
            final(self).widget_style(widget_id) == Some(style),
            forall|w: WidgetId| w != widget_id ==> #[trigger] final(self).widget_style(w) == old(self).widget_style(w),
            final(self).same_widget_selectors(&*old(self)),
    {
        self.widget_styles.insert(widget_id.0, style);
        assert forall|w: WidgetId| w != widget_id implies #[trigger] self.widget_style(w) == old(self).widget_style(w) by {
            assert(w.0 != widget_id.0);
        }
    }

    /// Registers `style` for a class when a widget's properties select `props`.
    pub fn register_style_class_prop(&mut self, class: &str, props: PropSet, style: S)
        requires
            old(self).wf(),
        ensures
            final(self).wf(),
            final(self).type_style() == old(self).type_style(),
            final(self).same_class_styles(&*old(self)),
            final(self).class_selector(class@) matches Some(sel) && selector_after_insert(
                sel,
                old(self).class_selector(class@),
                props,
                style,
            ),
            forall|c: Seq<char>| c != class@ ==> #[trigger] final(self).class_selector(c) == old(self).class_selector(c),
            final(self).same_widget_styles(&*old(self)),
            final(self).same_widget_selectors(&*old(self)),
    {
        let name = String::from_str(class);
        let ghost entries = self.class_selectors@;
        match class_position(&self.class_selectors, &name) {
            Some(i) => {
                proof {
                    lemma_class_lookup_at(entries, i as int);
                }
                let (key, mut selector) = self.class_selectors.remove(i);
                assert(selector.wf());
                selector.insert(props, style);
                self.class_selectors.insert(i, (key, selector));
                proof {
                    assert(self.class_selectors@ =~= entries.update(i as int, (key, selector)));
                    lemma_class_update(entries, i as int, (key, selector));
                    assert forall|k: int| 0 <= k < self.class_selectors@.len() implies (
                    #[trigger] self.class_selectors@[k]).1.wf() by {
                        if k != i {
                            assert(self.class_selectors@[k] == entries[k]);
                        }
                    }
                }
            },
            None => {
                let mut selector = Selector::new();
                selector.insert(props, style);
                self.class_selectors.push((name, selector));
                proof {
                    lemma_class_push(entries, (name, selector));
                    assert forall|k: int| 0 <= k < self.class_selectors@.len() implies (
                    #[trigger] self.class_selectors@[k]).1.wf() by {
                        if k < entries.len() {
                            assert(self.class_selectors@[k] == entries[k]);
                        }
                    }
                }
            },
        }
    }

    /// Registers `style` for a widget when its properties select `props`.
    pub fn register_style_widget_prop(&mut self, widget_id: WidgetId, props: PropSet, style: S)
        requires
            old(self).wf(),
        ensures
            final(self).wf(),
            final(self).type_style() == old(self).type_style(),
            final(self).same_class_styles(&*old(self)),
            final(self).same_class_selectors(&*old(self)),
            final(self).same_widget_styles(&*old(self)),
            final(self).widget_selector(widget_id) matches Some(sel) && selector_after_insert(
                sel,
                old(self).widget_selector(widget_id),
                props,
                style,
            ),
            forall|w: WidgetId| w != widget_id ==> #[trigger] final(self).widget_selector(w) == old(self).widget_selector(w),
    {
        let mut selector = match self.widget_selectors.remove(&widget_id.0) {
            Some(sel) => sel,
            None => Selector::new(),
        };
        selector.insert(props, style);
        self.widget_selectors.insert(widget_id.0, selector);
        assert forall|w: WidgetId| w != widget_id implies #[trigger] self.widget_selector(w) == old(self).widget_selector(w) by {
            assert(w.0 != widget_id.0);
        }
    }

    /// `layer` put over the style built so far.
    fn put_layer(cur: Option<S>, base: &S, layer: &S) -> (r: Option<S>)
        ensures
            r == layer_over(cur, *base, Some(*layer)),
    {
        match cur {
            Some(s) => Some(layer.merge(&s)),
            None => Some(layer.merge(base)),
        }
    }

    /// The style that `selector` selects by `props`, put over the style built so far.
    fn put_selected(cur: Option<S>, base: &S, selector: &Selector<S>, props: &PropSet) -> (r: Option<S>)
        requires
            selector.wf(),
        ensures
            r == select_layer(cur, *base, Some(*selector), *props),
    {
        let chosen = match &cur {
            Some(s) => selector.select_over(s, props),
            None => selector.select_over(base, props),
        };
        match chosen {
            Some(s) => Some(s),
            None => cur,
        }
    }

    /// The style for a widget of class `class` with properties `props`: the style
    /// of the type, then over it the style of the class, the style its properties
    /// select among those of the class, the style of the widget and the style its
    /// properties select among those of the widget, each where one is registered.
    /// A copy of the style of the type when none of them is.
    pub fn get_style(&self, class: Option<String>, widget_id: WidgetId, props: PropSet) -> (s: S)
        requires
            self.wf(),
            self.type_style() is Some,
        ensures
            match self.layers(
                match class {
                    Some(c) => Some(c@),
                    None => None,
                },
                widget_id,
                props,
            ) {
                Some(l) => s == l,
                None => cloned(self.type_style().unwrap(), s),
            },
    {
        let base: &S = self.type_style.as_ref().unwrap();
        let mut cur: Option<S> = None;
        if let Some(c) = &class {
            match class_position(&self.style_classes, c) {
                Some(i) => {
                    proof {
                        lemma_class_lookup_at(self.style_classes@, i as int);
                    }
                    cur = Self::put_layer(cur, base, &self.style_classes[i].1);
                },
                None => {},
            }
            match class_position(&self.class_selectors, c) {
                Some(i) => {
                    proof {
                        lemma_class_lookup_at(self.class_selectors@, i as int);
                    }
                    assert(self.class_selectors@[i as int].1.wf());
                    cur = Self::put_selected(cur, base, &self.class_selectors[i].1, &props);
                },
                None => {},
            }
        }
        match self.widget_styles.get(&widget_id.0) {
            Some(layer) => {
                cur = Self::put_layer(cur, base, layer);
            },
            None => {},
        }
        match self.widget_selectors.get(&widget_id.0) {
            Some(selector) => {
                cur = Self::put_selected(cur, base, selector, &props);
            },
            None => {},
        }
        match cur {
            Some(s) => s,
            None => base.clone(),
        }
    }

    pub fn new() -> (t: Self)
        ensures
            t.wf(),
            t.type_style() is None,
            forall|c: Seq<char>| #[trigger] t.class_style(c) is None && t.class_selector(c) is None,
            forall|w: WidgetId| #[trigger] t.widget_style(w) is None && t.widget_selector(w) is None,
    {
        Theme {
            type_style: None,
            style_classes: Vec::new(),
            widget_styles: HashMap::new(),
            class_selectors: Vec::new(),
            widget_selectors: HashMap::new(),
        }
    }
}

} // verus!

verus! {

/// A style registered for a property set is what a widget with exactly those
/// properties gets: after `insert(props, style)`, selecting with `props` puts
/// `style` over the style below, whatever was registered before.
pub proof fn law_registered_props_select_their_style<S: ComponentStyle>(
    selector: Selector<S>,
    previous: Option<Selector<S>>,
    props: PropSet,
    style: S,
    lower: S,
)
    requires
        selector_after_insert(selector, previous, props, style),
        selector.styles().len() <= usize::MAX,
    ensures
        select_style(selector.entries(), selector.styles(), lower, props) == style.merged(&lower),
{
    let (entries, styles) = match previous {
        Some(p) => (p.entries(), p.styles()),
        None => (Seq::<(PropSet, usize)>::empty(), Seq::<S>::empty()),
    };
    let kept = without_key(entries, props);
    let e = selector.entries();
    lemma_without_key(entries, props);
    assert(e =~= kept.push((props, styles.len() as usize)));
    assert(e[kept.len() as int] == (props, styles.len() as usize));
    assert(e[kept.len() as int].0 == props);
    let i = choose|i: int| 0 <= i < e.len() && #[trigger] e[i].0 == props;
    if i < kept.len() {
        assert(e[i] == kept[i]);
        assert(kept[i].0 != props);
    }
    assert(i == kept.len());
    assert(selector.styles()[styles.len() as int] == style);
}

/// The layers go from the most general to the most specific: for a widget of
/// class `class` with properties `props`, where the class has a style `cs` and
/// a style `cps` for exactly `props`, and the widget a style `ws` and a style
/// `wps` for exactly `props`, `get_style` gives `wps` over `ws` over `cps` over
/// `cs` over the type style. So a property style of the class wins over the
/// class style, and a widget's styles win over its class's.
pub proof fn law_style_layers_in_order<S: ComponentStyle>(
    theme: Theme<S>,
    class: Seq<char>,
    widget: WidgetId,
    props: PropSet,
    base: S,
    cs: S,
    cps: S,
    ws: S,
    wps: S,
)
    requires
        theme.type_style() == Some(base),
        theme.class_style(class) == Some(cs),
        theme.class_selector(class) matches Some(sel) && sel.style_for(props) == Some(cps),
        theme.widget_style(widget) == Some(ws),
        theme.widget_selector(widget) matches Some(sel) && sel.style_for(props) == Some(wps),
    ensures
        theme.layers(Some(class), widget, props) == Some(
            wps.merged(&ws.merged(&cps.merged(&cs.merged(&base)))),
        ),
{
}

/// For a class with a style `cs` and a style `cps` for exactly the properties
/// `props`, and a widget with no style of its own, `get_style` gives `cps` over
/// `cs` over the type style: the property style of the class wins over the
/// plain class style.
pub proof fn law_class_prop_style_over_class_style<S: ComponentStyle>(
    theme: Theme<S>,
    class: Seq<char>,
    widget: WidgetId,
    props: PropSet,
    base: S,
    cs: S,
    cps: S,
)
    requires
        theme.type_style() == Some(base),
        theme.class_style(class) == Some(cs),
        theme.class_selector(class) matches Some(sel) && sel.style_for(props) == Some(cps),
        theme.widget_style(widget) is None,
        theme.widget_selector(widget) is None,
    ensures
        theme.layers(Some(class), widget, props) == Some(cps.merged(&cs.merged(&base))),
{
}

/// With no class and no style for the widget or its properties, a widget gets
/// the type style.
pub proof fn law_type_style_alone<S: ComponentStyle>(theme: Theme<S>, widget: WidgetId, props: PropSet)
    requires
        theme.widget_style(widget) is None,
        theme.widget_selector(widget) is None,
    ensures
        theme.layers(None, widget, props) is None,
{
}

} // verus!
