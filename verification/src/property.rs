use vstd::prelude::*;

verus! {

/// A state that a widget can be in, used to select its style.
#[derive(Copy, Clone, Debug, PartialEq, Eq, Structural, Hash, PartialOrd, Ord)]
pub enum Property {
    Hover,
    MouseOver,
    Pressed,
    Activated,
    Selected,
    Inactive,
    Focused,
}

/// A change to the set of properties of a widget.
#[derive(Copy, Clone, Debug, PartialEq, Eq, Structural)]
pub enum PropChange {
    Add(Property),
    Remove(Property),
}

} // verus!

verus! {

/// A set of widget properties.
#[derive(Copy, Clone, Debug, PartialEq, Eq, Structural, Hash)]
pub struct PropSet {
    hover: bool,
    mouse_over: bool,
    pressed: bool,
    activated: bool,
    selected: bool,
    inactive: bool,
    focused: bool,
}

impl PropSet {
    /// Whether the set holds `p`.
    pub closed spec fn has(self, p: Property) -> bool {
        match p {
            Property::Hover => self.hover,
            Property::MouseOver => self.mouse_over,
            Property::Pressed => self.pressed,
            Property::Activated => self.activated,
            Property::Selected => self.selected,
            Property::Inactive => self.inactive,
            Property::Focused => self.focused,
        }
    }

    /// The properties of the set.
    pub open spec fn view(self) -> Set<Property> {
        Set::new(|p: Property| self.has(p))
    }

    /// The empty set.
    pub fn new() -> (s: Self)
        ensures
            forall|p: Property| !s.has(p),
    {
        PropSet {
            hover: false,
            mouse_over: false,
            pressed: false,
            activated: false,
            selected: false,
            inactive: false,
            focused: false,
        }
    }

    /// Adds `p` to the set.
    pub fn insert(&mut self, p: Property)
        ensures
            forall|q: Property| final(self).has(q) == (q == p || old(self).has(q)),
    {
        match p {
            Property::Hover => self.hover = true,
            Property::MouseOver => self.mouse_over = true,
            Property::Pressed => self.pressed = true,
            Property::Activated => self.activated = true,
            Property::Selected => self.selected = true,
            Property::Inactive => self.inactive = true,
            Property::Focused => self.focused = true,
        }
    }

    /// Removes `p` from the set.
    pub fn remove(&mut self, p: Property)
        ensures
            forall|q: Property| final(self).has(q) == (q != p && old(self).has(q)),
    {
        match p {
            Property::Hover => self.hover = false,
            Property::MouseOver => self.mouse_over = false,
            Property::Pressed => self.pressed = false,
            Property::Activated => self.activated = false,
            Property::Selected => self.selected = false,
            Property::Inactive => self.inactive = false,
            Property::Focused => self.focused = false,
        }
    }

    /// Whether the set holds `p`.
    pub fn contains(&self, p: Property) -> (r: bool)
        ensures
            r == self.has(p),
    {
        match p {
            Property::Hover => self.hover,
            Property::MouseOver => self.mouse_over,
            Property::Pressed => self.pressed,
            Property::Activated => self.activated,
            Property::Selected => self.selected,
            Property::Inactive => self.inactive,
            Property::Focused => self.focused,
        }
    }

    /// Whether every property of this set is in `other`.
    pub fn is_subset(&self, other: &PropSet) -> (r: bool)
        ensures
            r == (forall|p: Property| self.has(p) ==> #[trigger] other.has(p)),
    {
        let r = (!self.hover || other.hover) && (!self.mouse_over || other.mouse_over) && (!self.pressed
            || other.pressed) && (!self.activated || other.activated) && (!self.selected || other.selected)
            && (!self.inactive || other.inactive) && (!self.focused || other.focused);
        proof {
            if !r {
                if self.hover && !other.hover {
                    assert(self.has(Property::Hover) && !other.has(Property::Hover));
                } else if self.mouse_over && !other.mouse_over {
                    assert(self.has(Property::MouseOver) && !other.has(Property::MouseOver));
                } else if self.pressed && !other.pressed {
                    assert(self.has(Property::Pressed) && !other.has(Property::Pressed));
                } else if self.activated && !other.activated {
                    assert(self.has(Property::Activated) && !other.has(Property::Activated));
                } else if self.selected && !other.selected {
                    assert(self.has(Property::Selected) && !other.has(Property::Selected));
                } else if self.inactive && !other.inactive {
                    assert(self.has(Property::Inactive) && !other.has(Property::Inactive));
                } else {
                    assert(self.has(Property::Focused) && !other.has(Property::Focused));
                }
            }
        }
        r
    }
}

/// The set `a` is included in the set `b`.
pub open spec fn prop_subset(a: PropSet, b: PropSet) -> bool {
    forall|p: Property| a.has(p) ==> #[trigger] b.has(p)
}

} // verus!
