use vstd::prelude::*;

verus! {

/// An identifier that wraps a `usize` index.
///
/// Every implementation must produce an id whose index is the one it was built from.
pub trait Id: Sized + Copy {
    /// The index this id wraps.
    spec fn index(&self) -> usize;

    fn new(index: usize) -> (id: Self)
        ensures
            id.index() == index,
    ;

    /// The index this id wraps.
    fn index_exec(&self) -> (i: usize)
        ensures
            i == self.index(),
    ;
}

/// Identifier of a widget.
#[derive(Copy, Clone, Debug, Hash, PartialEq, Eq, Structural, PartialOrd, Ord)]
pub struct WidgetId(pub usize);

impl Id for WidgetId {
    open spec fn index(&self) -> usize {
        self.0
    }

    fn new(index: usize) -> (id: WidgetId) {
        WidgetId(index)
    }

    fn index_exec(&self) -> (i: usize) {
        self.0
    }
}

/// The index that follows `i` for an id generator: counting up, wrapping at `usize::MAX`.
pub open spec fn next_index(i: usize) -> usize {
    if i == usize::MAX {
        0
    } else {
        (i + 1) as usize
    }
}

/// Generates named Ids, wrappers around increasing usize values.
/// For Ids to be unique, just needs to be one IdGen per Id type.
pub struct IdGen<I> {
    id: usize,
    phantom: core::marker::PhantomData<I>,
}

impl<I: Id> IdGen<I> {
    /// The index the next generated id will wrap.
    pub closed spec fn counter(&self) -> usize {
        self.id
    }

    pub fn new() -> (g: Self)
        ensures
            g.counter() == 0,
    {
        IdGen { id: 0, phantom: core::marker::PhantomData }
    }

    pub fn next(&mut self) -> (id: I)
        ensures
            id.index() == old(self).counter(),
            final(self).counter() == next_index(old(self).counter()),
    {
        let id = self.id;
        self.id = id.wrapping_add(1);
        I::new(id)
    }
}

} // verus!

verus! {

/// The indices handed out by `n` successive calls of `IdGen::next`, starting from counter `c`.
pub open spec fn indices_from(c: usize, n: nat) -> Seq<usize>
    decreases n,
{
    if n == 0 {
        Seq::empty()
    } else {
        seq![c] + indices_from(next_index(c), (n - 1) as nat)
    }
}

/// Ids handed out by one generator are increasing, hence unique, as long as
/// the counter does not wrap: `n` successive calls starting at counter `c`
/// give `c, c + 1, ..., c + n - 1` when `c + n - 1 <= usize::MAX`.
pub proof fn law_ids_increase(c: usize, n: nat)
    requires
        c + n <= usize::MAX + 1,
    ensures
        indices_from(c, n).len() == n,
        forall|i: int| 0 <= i < n ==> #[trigger] indices_from(c, n)[i] == c + i,
    decreases n,
{
    if n > 0 {
        if n > 1 {
            law_ids_increase(next_index(c), (n - 1) as nat);
        } else {
            assert(indices_from(next_index(c), 0) =~= Seq::<usize>::empty());
        }
        let rest = indices_from(next_index(c), (n - 1) as nat);
        assert forall|i: int| 0 <= i < n implies #[trigger] indices_from(c, n)[i] == c + i by {
            if i > 0 {
                assert(indices_from(c, n)[i] == rest[i - 1]);
            }
        }
    }
}

} // verus!

verus! {

/// The `i`-th index a generator hands out from counter `c` (counting from zero),
/// for `i` up to the number of indices: `c + i`, wrapped once past `usize::MAX`.
pub open spec fn wrapped_index(c: usize, i: int) -> int {
    if c + i <= usize::MAX {
        c + i
    } else {
        c + i - (usize::MAX + 1)
    }
}

/// Ids wrap only after `usize::MAX + 1` of them: `n <= usize::MAX + 1` successive
/// calls of `IdGen::next` from counter `c` count up from `c`, going on from zero
/// past `usize::MAX`, and give pairwise distinct ids.
pub proof fn law_ids_wrap(c: usize, n: nat)
    requires
        n <= usize::MAX + 1,
    ensures
        indices_from(c, n).len() == n,
        forall|i: int| 0 <= i < n ==> #[trigger] indices_from(c, n)[i] == wrapped_index(c, i),
        forall|i: int, j: int| 0 <= i < j < n ==> indices_from(c, n)[i] != indices_from(c, n)[j],
    decreases n,
{
    if n > 0 {
        law_ids_wrap(next_index(c), (n - 1) as nat);
        let rest = indices_from(next_index(c), (n - 1) as nat);
        assert forall|i: int| 0 <= i < n implies #[trigger] indices_from(c, n)[i] == wrapped_index(c, i) by {
            if i > 0 {
                assert(indices_from(c, n)[i] == rest[i - 1]);
                assert(rest[i - 1] == wrapped_index(next_index(c), i - 1));
            }
        }
        assert forall|i: int, j: int| 0 <= i < j < n implies indices_from(c, n)[i] != indices_from(c, n)[j] by {
            assert(indices_from(c, n)[i] == wrapped_index(c, i));
            assert(indices_from(c, n)[j] == wrapped_index(c, j));
        }
    }
}

} // verus!
