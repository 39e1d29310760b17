use std::collections::{HashMap, VecDeque};

use vstd::prelude::*;

use crate::resources::id::WidgetId;

verus! {

broadcast use {vstd::std_specs::hash::group_hash_axioms, vstd::std_specs::vecdeque::group_vec_dequeue_axioms};

/// The children of `w` in `children`, none if `w` is unknown.
pub open spec fn kids_of(children: Map<usize, Seq<WidgetId>>, w: usize) -> Seq<WidgetId> {
    if children.contains_key(w) {
        children[w]
    } else {
        Seq::empty()
    }
}

/// Every widget has an age below `count`, and each child is younger than its parent.
pub open spec fn shape_wf(children: Map<usize, Seq<WidgetId>>, age: Map<usize, nat>, count: nat) -> bool {
    forall|p: usize| #[trigger]
        children.contains_key(p) ==> {
            &&& age.contains_key(p)
            &&& age[p] < count
            &&& forall|i: int|
                0 <= i < children[p].len() ==> {
                    &&& children.contains_key(#[trigger] children[p][i].0)
                    &&& age[children[p][i].0] > age[p]
                }
        }
}

/// The widgets of the subtree rooted at `w`, parents before children and
/// siblings in the order they were added.
pub open spec fn subtree_order(
    children: Map<usize, Seq<WidgetId>>,
    age: Map<usize, nat>,
    count: nat,
    w: usize,
) -> Seq<WidgetId>
    decreases count - age[w], kids_of(children, w).len() + 1,
    when shape_wf(children, age, count) && (children.contains_key(w) ==> age[w] < count)
{
    seq![WidgetId(w)] + forest_order(children, age, count, w, kids_of(children, w).len())
}

/// The subtrees of the first `k` children of `p`, one after the other.
pub open spec fn forest_order(
    children: Map<usize, Seq<WidgetId>>,
    age: Map<usize, nat>,
    count: nat,
    p: usize,
    k: nat,
) -> Seq<WidgetId>
    decreases count - age[p], k,
    when shape_wf(children, age, count) && k <= kids_of(children, p).len() && (children.contains_key(p)
        ==> age[p] < count)
{
    if k == 0 {
        Seq::empty()
    } else {
        forest_order(children, age, count, p, (k - 1) as nat) + subtree_order(
            children,
            age,
            count,
            kids_of(children, p)[k - 1].0,
        )
    }
}

/// The widgets of a Ui and how they nest.
pub struct WidgetTree {
    children: HashMap<usize, Vec<WidgetId>>,
    parents: HashMap<usize, WidgetId>,
    age: Ghost<Map<usize, nat>>,
    count: Ghost<nat>,
}

impl WidgetTree {
    /// The children of each widget of the tree, by widget index.
    pub closed spec fn children(&self) -> Map<usize, Seq<WidgetId>> {
        self.children@.map_values(|v: Vec<WidgetId>| v@)
    }

    /// The parent of each widget that has one, by widget index.
    pub closed spec fn parents(&self) -> Map<usize, WidgetId> {
        self.parents@
    }

    /// The order in which widgets joined the tree.
    pub closed spec fn age(&self) -> Map<usize, nat> {
        self.age@
    }

    /// The number of widgets that joined the tree.
    pub closed spec fn count(&self) -> nat {
        self.count@
    }

    /// `w` is a widget of the tree.
    pub open spec fn contains(&self, w: WidgetId) -> bool {
        self.children().contains_key(w.0)
    }

    /// Children are younger than their parents, each child knows its parent,
    /// and only widgets of the tree have parents.
    pub open spec fn wf(&self) -> bool {
        &&& shape_wf(self.children(), self.age(), self.count())
        &&& forall|p: usize, i: int|
            #![trigger self.children()[p][i]]
            self.children().contains_key(p) && 0 <= i < self.children()[p].len() ==> self.parents().contains_key(
                self.children()[p][i].0,
            ) && self.parents()[self.children()[p][i].0] == WidgetId(p)
        &&& forall|c: usize| #[trigger] self.parents().contains_key(c) ==> self.children().contains_key(c)
        &&& forall|p: usize| #[trigger] self.children().contains_key(p) ==> self.children()[p].no_duplicates()
        &&& forall|c: usize| #[trigger]
            self.parents().contains_key(c) ==> self.children().contains_key(self.parents()[c].0) && self.age()[self.parents()[c].0]
                < self.age()[c]
    }

    /// The widgets of the subtree rooted at `w`, in the order events sent to the subtree visit them.
    pub open spec fn subtree(&self, w: WidgetId) -> Seq<WidgetId> {
        subtree_order(self.children(), self.age(), self.count(), w.0)
    }

    /// A tree holding only `root`.
    pub fn new(root: WidgetId) -> (t: Self)
        ensures
            t.wf(),
            t.children() == Map::<usize, Seq<WidgetId>>::empty().insert(root.0, Seq::empty()),
            t.parents() == Map::<usize, WidgetId>::empty(),
    {
        let mut children: HashMap<usize, Vec<WidgetId>> = HashMap::new();
        children.insert(root.0, Vec::new());
        let t = WidgetTree {
            children,
            parents: HashMap::new(),
            age: Ghost(Map::empty().insert(root.0, 0)),
            count: Ghost(1),
        };
        assert(t.children() =~= Map::<usize, Seq<WidgetId>>::empty().insert(root.0, Seq::empty()));
        t
    }

    /// Attaches a new widget as the last child of `parent`.
    pub fn add_child(&mut self, parent: WidgetId, child: WidgetId)
        requires
            old(self).wf(),
            old(self).contains(parent),
            !old(self).contains(child),
        ensures
            final(self).wf(),
            final(self).children() == old(self).children().insert(
                parent.0,
                old(self).children()[parent.0].push(child),
            ).insert(child.0, Seq::empty()),
            final(self).parents() == old(self).parents().insert(child.0, parent),
    {
        let ghost old_children = self.children();
        let mut kids = self.children.remove(&parent.0).unwrap();
        kids.push(child);
        self.children.insert(parent.0, kids);
        self.children.insert(child.0, Vec::new());
        self.parents.insert(child.0, parent);
        let ghost n = self.count@;
        self.age = Ghost(self.age@.insert(child.0, n));
        self.count = Ghost(n + 1);
        proof {
            let new_children = old_children.insert(parent.0, old_children[parent.0].push(child)).insert(
                child.0,
                Seq::empty(),
            );
            assert(self.children() =~= new_children);
            let ch = self.children();
            let age = self.age();
            assert forall|p: usize| #[trigger] ch.contains_key(p) implies {
                &&& age.contains_key(p)
                &&& age[p] < self.count()
                &&& forall|i: int|
                    0 <= i < ch[p].len() ==> {
                        &&& ch.contains_key(#[trigger] ch[p][i].0)
                        &&& age[ch[p][i].0] > age[p]
                    }
            } by {
                if p != child.0 {
                    assert(old_children.contains_key(p));
                    assert forall|i: int| 0 <= i < ch[p].len() implies {
                        &&& ch.contains_key(#[trigger] ch[p][i].0)
                        &&& age[ch[p][i].0] > age[p]
                    } by {
                        if p == parent.0 && i == ch[p].len() - 1 {
                        } else {
                            assert(ch[p][i] == old_children[p][i]);
                            assert(old_children.contains_key(old_children[p][i].0));
                        }
                    }
                }
            }
            assert forall|p: usize, i: int|
                #![trigger ch[p][i]]
                ch.contains_key(p) && 0 <= i < ch[p].len() implies self.parents().contains_key(ch[p][i].0)
                && self.parents()[ch[p][i].0] == WidgetId(p) by {
                if p != child.0 {
                    if !(p == parent.0 && i == ch[p].len() - 1) {
                        assert(ch[p][i] == old_children[p][i]);
                        assert(old(self).parents().contains_key(old_children[p][i].0));
                        assert(old_children.contains_key(old_children[p][i].0));
                    }
                }
            }
            assert(shape_wf(ch, age, self.count()));
            assert forall|c: usize| #[trigger] self.parents().contains_key(c) implies ch.contains_key(c) by {
                if c != child.0 {
                    assert(old(self).parents().contains_key(c));
                }
            }
            assert forall|c: usize| #[trigger] self.parents().contains_key(c) implies ch.contains_key(self.parents()[c].0)
                && age[self.parents()[c].0] < age[c] by {
                if c != child.0 {
                    assert(old(self).parents().contains_key(c));
                    assert(old(self).parents()[c] == self.parents()[c]);
                    assert(old_children.contains_key(old(self).parents()[c].0));
                }
            }
            assert forall|p: usize| #[trigger] ch.contains_key(p) implies ch[p].no_duplicates() by {
                if p == parent.0 {
                    let l = old_children[p];
                    assert(ch[p] == l.push(child));
                    assert forall|a: int, b: int| 0 <= a < b < ch[p].len() implies ch[p][a] != ch[p][b] by {
                        if b == l.len() {
                            assert(ch[p][a] == l[a]);
                            assert(old_children.contains_key(l[a].0));
                        } else {
                            assert(l.no_duplicates());
                        }
                    }
                } else if p != child.0 {
                    assert(old_children.contains_key(p));
                    assert(ch[p] == old_children[p]);
                }
            }
        }
    }

    /// Whether `w` is a widget of the tree.
    pub fn contains_widget(&self, w: WidgetId) -> (r: bool)
        ensures
            r == self.contains(w),
    {
        self.children.contains_key(&w.0)
    }

    /// The parent of `w`, if it has one.
    pub fn parent(&self, w: WidgetId) -> (p: Option<WidgetId>)
        ensures
            p == (if self.parents().contains_key(w.0) {
                Some(self.parents()[w.0])
            } else {
                None
            }),
    {
        match self.parents.get(&w.0) {
            Some(p) => Some(*p),
            None => None,
        }
    }

    /// The children of `w`, in the order they were added; none if `w` is unknown.
    pub fn children_of(&self, w: WidgetId) -> (kids: Vec<WidgetId>)
        ensures
            kids@ == kids_of(self.children(), w.0),
    {
        match self.children.get(&w.0) {
            Some(kids) => kids.clone(),
            None => Vec::new(),
        }
    }

    fn collect_subtree(&self, w: WidgetId, out: &mut Vec<WidgetId>)
        requires
            self.wf(),
        ensures
            final(out)@ == old(out)@ + self.subtree(w),
        decreases self.count() - self.age()[w.0], kids_of(self.children(), w.0).len() + 1,
    {
        let ghost ch = self.children();
        let ghost age = self.age();
        let ghost count = self.count();
        out.push(w);
        let kids = self.children_of(w);
        let mut i: usize = 0;
        while i < kids.len()
            invariant
                self.wf(),
                ch == self.children(),
                age == self.age(),
                count == self.count(),
                kids@ == kids_of(ch, w.0),
                i <= kids@.len(),
                out@ == old(out)@ + seq![w] + forest_order(ch, age, count, w.0, i as nat),
            decreases kids@.len() - i,
        {
            proof {
                assert(ch.contains_key(w.0));
                assert(ch.contains_key(kids@[i as int].0));
            }
            self.collect_subtree(kids[i], out);
            proof {
                assert(forest_order(ch, age, count, w.0, (i + 1) as nat) == forest_order(
                    ch,
                    age,
                    count,
                    w.0,
                    i as nat,
                ) + subtree_order(ch, age, count, kids@[i as int].0));
            }
            i = i + 1;
        }
        proof {
            assert(out@ =~= old(out)@ + self.subtree(w));
        }
    }

    /// The widgets an event sent to the subtree of `w` is delivered to, in order:
    /// `w` first, then the subtree of each child in turn.
    pub fn subtree_widgets(&self, w: WidgetId) -> (ws: Vec<WidgetId>)
        requires
            self.wf(),
        ensures
            ws@ == self.subtree(w),
    {
        let mut out: Vec<WidgetId> = Vec::new();
        self.collect_subtree(w, &mut out);
        assert(out@ =~= self.subtree(w));
        out
    }
}

/// Breadth first walk of a widget tree.
pub struct Bfs {
    queue: VecDeque<WidgetId>,
}

impl Bfs {
    /// The widgets waiting to be visited, in order.
    pub closed spec fn view(&self) -> Seq<WidgetId> {
        self.queue@
    }

    /// A walk starting at `root`.
    pub fn new(root: WidgetId) -> (b: Self)
        ensures
            b@ == seq![root],
    {
        let mut queue = VecDeque::new();
        queue.push_front(root);
        Bfs { queue: queue }
    }

    /// Visits the next widget; its children wait after every widget already waiting.
    pub fn next(&mut self, tree: &WidgetTree) -> (w: Option<WidgetId>)
        ensures
            old(self)@.len() == 0 ==> w is None && final(self)@ == old(self)@,
            old(self)@.len() > 0 ==> {
                &&& w == Some(old(self)@[0])
                &&& final(self)@ == old(self)@.drop_first() + kids_of(tree.children(), old(self)@[0].0)
            },
    {
        if let Some(widget_ref) = self.queue.pop_front() {
            let kids = tree.children_of(widget_ref);
            let ghost base = self.queue@;
            let mut i: usize = 0;
            while i < kids.len()
                invariant
                    i <= kids@.len(),
                    self.queue@ == base + kids@.subrange(0, i as int),
                decreases kids@.len() - i,
            {
                self.queue.push_back(kids[i]);
                proof {
                    assert(kids@.subrange(0, i + 1) =~= kids@.subrange(0, i as int).push(kids@[i as int]));
                }
                i = i + 1;
            }
            proof {
                assert(kids@.subrange(0, kids@.len() as int) =~= kids@);
            }
            Some(widget_ref)
        } else {
            None
        }
    }
}

} // verus!

verus! {

proof fn lemma_forest_contains(children: Map<usize, Seq<WidgetId>>, age: Map<usize, nat>, count: nat, p: usize, k: nat)
    requires
        shape_wf(children, age, count),
        children.contains_key(p),
        k <= kids_of(children, p).len(),
    ensures
        forall|j: int| 0 <= j < k ==> forest_order(children, age, count, p, k).contains(
            #[trigger] kids_of(children, p)[j],
        ),
    decreases k,
{
    if k > 0 {
        lemma_forest_contains(children, age, count, p, (k - 1) as nat);
        let prev = forest_order(children, age, count, p, (k - 1) as nat);
        let c = kids_of(children, p)[k - 1];
        assert(children.contains_key(children[p][k - 1].0));
        let sub = subtree_order(children, age, count, c.0);
        assert(sub[0] == c);
        let whole = forest_order(children, age, count, p, k);
        assert(whole == prev + sub);
        assert forall|j: int| 0 <= j < k implies whole.contains(#[trigger] kids_of(children, p)[j]) by {
            if j < k - 1 {
                let x = choose|x: int| 0 <= x < prev.len() && prev[x] == kids_of(children, p)[j];
                assert(whole[x] == prev[x]);
            } else {
                assert(whole[prev.len() as int] == sub[0]);
            }
        }
    }
}

/// An event sent to a subtree reaches its root first, and then each child of the root.
pub proof fn law_subtree_starts_at_root_and_reaches_children(tree: WidgetTree, w: WidgetId)
    requires
        tree.wf(),
        tree.contains(w),
    ensures
        tree.subtree(w)[0] == w,
        forall|i: int|
            0 <= i < kids_of(tree.children(), w.0).len() ==> tree.subtree(w).contains(
                #[trigger] kids_of(tree.children(), w.0)[i],
            ),
{
    let ch = tree.children();
    let age = tree.age();
    let count = tree.count();
    let k = kids_of(ch, w.0).len();
    lemma_forest_contains(ch, age, count, w.0, k);
    let f = forest_order(ch, age, count, w.0, k);
    assert(tree.subtree(w) == seq![w] + f);
    assert forall|i: int| 0 <= i < k implies tree.subtree(w).contains(#[trigger] kids_of(ch, w.0)[i]) by {
        let x = choose|x: int| 0 <= x < f.len() && f[x] == kids_of(ch, w.0)[i];
        assert(tree.subtree(w)[x + 1] == f[x]);
    }
}

} // verus!
