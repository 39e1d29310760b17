//! Walking the widget tree in the reverse of the order it is drawn in, to find
//! the widgets under the cursor, topmost first.

use std::collections::HashSet;

use vstd::prelude::*;

use crate::resources::id::WidgetId;
use crate::ui::tree::{forest_order, kids_of, shape_wf, subtree_order, WidgetTree};

verus! {

broadcast use vstd::std_specs::hash::group_hash_axioms;

/// What the walk relies on of a widget tree: children are younger than their
/// parents, each child knows its parent, and no widget is a child twice.
pub open spec fn tree_shape(
    ch: Map<usize, Seq<WidgetId>>,
    parents: Map<usize, WidgetId>,
    age: Map<usize, nat>,
    count: nat,
) -> bool {
    &&& shape_wf(ch, age, count)
    &&& forall|p: usize, i: int|
        #![trigger ch[p][i]]
        ch.contains_key(p) && 0 <= i < ch[p].len() ==> parents.contains_key(ch[p][i].0) && parents[ch[p][i].0]
            == WidgetId(p)
    &&& forall|p: usize| #[trigger] ch.contains_key(p) ==> ch[p].no_duplicates()
}

/// Every widget of the forest below the first `k` children of `p` is in the
/// tree, younger than `p`, and its parent is `p` or in the forest too, and older than it.
proof fn lemma_forest_up(
    ch: Map<usize, Seq<WidgetId>>,
    parents: Map<usize, WidgetId>,
    age: Map<usize, nat>,
    count: nat,
    p: usize,
    k: nat,
)
    requires
        tree_shape(ch, parents, age, count),
        ch.contains_key(p),
        k <= ch[p].len(),
    ensures
        forall|i: int|
            0 <= i < forest_order(ch, age, count, p, k).len() ==> {
                let x = #[trigger] forest_order(ch, age, count, p, k)[i];
                &&& ch.contains_key(x.0)
                &&& age[x.0] > age[p]
                &&& parents.contains_key(x.0)
                &&& age[parents[x.0].0] < age[x.0]
                &&& (parents[x.0].0 == p || forest_order(ch, age, count, p, k).contains(parents[x.0]))
            },
        forall|i: int|
            0 <= i < forest_order(ch, age, count, p, k).len() ==> exists|j: int|
                0 <= j < k && subtree_order(ch, age, count, ch[p][j].0).contains(
                    #[trigger] forest_order(ch, age, count, p, k)[i],
                ),
    decreases count - age[p], k,
{
    if k > 0 {
        lemma_forest_up(ch, parents, age, count, p, (k - 1) as nat);
        let prev = forest_order(ch, age, count, p, (k - 1) as nat);
        let c = ch[p][k - 1];
        assert(ch.contains_key(c.0));
        assert(age[c.0] > age[p]);
        lemma_subtree_up(ch, parents, age, count, c.0);
        let sub = subtree_order(ch, age, count, c.0);
        let whole = forest_order(ch, age, count, p, k);
        assert(kids_of(ch, p) == ch[p]);
        assert(whole == prev + sub);
        assert forall|i: int| 0 <= i < whole.len() implies {
            let x = #[trigger] whole[i];
            &&& ch.contains_key(x.0)
            &&& age[x.0] > age[p]
            &&& parents.contains_key(x.0)
            &&& age[parents[x.0].0] < age[x.0]
            &&& (parents[x.0].0 == p || whole.contains(parents[x.0]))
        } by {
            if i < prev.len() {
                assert(whole[i] == prev[i]);
                let x = prev[i];
                if parents[x.0].0 != p {
                    let m = choose|m: int| 0 <= m < prev.len() && prev[m] == parents[x.0];
                    assert(whole[m] == prev[m]);
                }
            } else {
                let j = i - prev.len();
                assert(whole[i] == sub[j]);
                let x = sub[j];
                if j == 0 {
                    assert(x == c);
                    assert(parents[c.0] == WidgetId(p));
                } else {
                    let m = choose|m: int| 0 <= m < sub.len() && sub[m] == parents[x.0];
                    assert(whole[prev.len() + m] == sub[m]);
                }
            }
        }
        assert forall|i: int| 0 <= i < whole.len() implies exists|j: int|
            0 <= j < k && subtree_order(ch, age, count, ch[p][j].0).contains(#[trigger] whole[i]) by {
            if i < prev.len() {
                assert(whole[i] == prev[i]);
                let j = choose|j: int| 0 <= j < k - 1 && subtree_order(ch, age, count, ch[p][j].0).contains(prev[i]);
            } else {
                assert(whole[i] == sub[i - prev.len()]);
                assert(sub.contains(whole[i]));
            }
        }
    }
}

/// The subtree of `w` starts at `w`; every other widget of it is in the tree,
/// younger than `w`, and has its parent in the subtree, older than itself.
proof fn lemma_subtree_up(
    ch: Map<usize, Seq<WidgetId>>,
    parents: Map<usize, WidgetId>,
    age: Map<usize, nat>,
    count: nat,
    w: usize,
)
    requires
        tree_shape(ch, parents, age, count),
        ch.contains_key(w),
    ensures
        subtree_order(ch, age, count, w)[0] == WidgetId(w),
        forall|i: int|
            0 <= i < subtree_order(ch, age, count, w).len() ==> ch.contains_key(
                (#[trigger] subtree_order(ch, age, count, w)[i]).0,
            ) && age[subtree_order(ch, age, count, w)[i].0] >= age[w],
        forall|i: int|
            1 <= i < subtree_order(ch, age, count, w).len() ==> {
                let x = #[trigger] subtree_order(ch, age, count, w)[i];
                &&& age[x.0] > age[w]
                &&& parents.contains_key(x.0)
                &&& age[parents[x.0].0] < age[x.0]
                &&& subtree_order(ch, age, count, w).contains(parents[x.0])
            },
    decreases count - age[w], ch[w].len() + 1,
{
    let k = ch[w].len();
    assert(kids_of(ch, w) == ch[w]);
    lemma_forest_up(ch, parents, age, count, w, k);
    let f = forest_order(ch, age, count, w, k);
    let s = subtree_order(ch, age, count, w);
    assert(s == seq![WidgetId(w)] + f);
    assert forall|i: int| 1 <= i < s.len() implies {
        let x = #[trigger] s[i];
        &&& age[x.0] > age[w]
        &&& parents.contains_key(x.0)
        &&& age[parents[x.0].0] < age[x.0]
        &&& s.contains(parents[x.0])
    } by {
        assert(s[i] == f[i - 1]);
        let x = f[i - 1];
        if parents[x.0].0 == w {
            assert(s[0] == WidgetId(w));
        } else {
            let m = choose|m: int| 0 <= m < f.len() && f[m] == parents[x.0];
            assert(s[m + 1] == f[m]);
        }
    }
    assert forall|i: int| 0 <= i < s.len() implies ch.contains_key((#[trigger] s[i]).0) && age[s[i].0] >= age[w] by {
        if i > 0 {
            assert(s[i] == f[i - 1]);
        }
    }
}

/// The subtrees of two different children of one parent share no widget.
proof fn lemma_siblings_disjoint(
    ch: Map<usize, Seq<WidgetId>>,
    parents: Map<usize, WidgetId>,
    age: Map<usize, nat>,
    count: nat,
    c1: usize,
    c2: usize,
    x: WidgetId,
)
    requires
        tree_shape(ch, parents, age, count),
        ch.contains_key(c1),
        ch.contains_key(c2),
        c1 != c2,
        parents.contains_key(c1),
        parents.contains_key(c2),
        parents[c1] == parents[c2],
        age[parents[c1].0] < age[c1],
        age[parents[c2].0] < age[c2],
    ensures
        !(subtree_order(ch, age, count, c1).contains(x) && subtree_order(ch, age, count, c2).contains(x)),
    decreases age[x.0],
{
    let s1 = subtree_order(ch, age, count, c1);
    let s2 = subtree_order(ch, age, count, c2);
    if s1.contains(x) && s2.contains(x) {
        lemma_subtree_up(ch, parents, age, count, c1);
        lemma_subtree_up(ch, parents, age, count, c2);
        let i1 = choose|i: int| 0 <= i < s1.len() && s1[i] == x;
        let i2 = choose|i: int| 0 <= i < s2.len() && s2[i] == x;
        if i1 == 0 {
            // x is c1, so its parent is in the subtree of c2, yet older than c2
            assert(x.0 == c1);
            assert(i2 != 0);
            assert(s2[i2] == x);
            let m = choose|m: int| 0 <= m < s2.len() && s2[m] == parents[x.0];
            assert(age[s2[m].0] >= age[c2]);
        } else if i2 == 0 {
            assert(x.0 == c2);
            assert(s1[i1] == x);
            let m = choose|m: int| 0 <= m < s1.len() && s1[m] == parents[x.0];
            assert(age[s1[m].0] >= age[c1]);
        } else {
            assert(s1[i1] == x);
            assert(s2[i2] == x);
            lemma_siblings_disjoint(ch, parents, age, count, c1, c2, parents[x.0]);
        }
    }
}

/// The forest below the first `k` children of `p` holds no widget twice.
proof fn lemma_forest_distinct(
    ch: Map<usize, Seq<WidgetId>>,
    parents: Map<usize, WidgetId>,
    age: Map<usize, nat>,
    count: nat,
    p: usize,
    k: nat,
)
    requires
        tree_shape(ch, parents, age, count),
        ch.contains_key(p),
        k <= ch[p].len(),
    ensures
        forest_order(ch, age, count, p, k).no_duplicates(),
    decreases count - age[p], k,
{
    if k > 0 {
        lemma_forest_distinct(ch, parents, age, count, p, (k - 1) as nat);
        lemma_forest_up(ch, parents, age, count, p, (k - 1) as nat);
        let prev = forest_order(ch, age, count, p, (k - 1) as nat);
        let c = ch[p][k - 1];
        assert(ch.contains_key(c.0));
        lemma_subtree_distinct(ch, parents, age, count, c.0);
        let sub = subtree_order(ch, age, count, c.0);
        let whole = forest_order(ch, age, count, p, k);
        assert(kids_of(ch, p) == ch[p]);
        assert(whole == prev + sub);
        assert forall|a: int, b: int| 0 <= a < b < whole.len() implies whole[a] != whole[b] by {
            if b < prev.len() {
                assert(whole[a] == prev[a] && whole[b] == prev[b]);
            } else if a >= prev.len() {
                assert(whole[a] == sub[a - prev.len()] && whole[b] == sub[b - prev.len()]);
            } else {
                assert(whole[a] == prev[a]);
                assert(whole[b] == sub[b - prev.len()]);
                if whole[a] == whole[b] {
                    let x = prev[a];
                    let j = choose|j: int| 0 <= j < k - 1 && subtree_order(ch, age, count, ch[p][j].0).contains(prev[a]);
                    let cj = ch[p][j];
                    assert(ch.contains_key(cj.0));
                    assert(ch[p].no_duplicates());
                    assert(cj != c);
                    assert(sub.contains(x));
                    lemma_siblings_disjoint(ch, parents, age, count, cj.0, c.0, x);
                }
            }
        }
    }
}

/// The subtree of `w` holds no widget twice.
proof fn lemma_subtree_distinct(
    ch: Map<usize, Seq<WidgetId>>,
    parents: Map<usize, WidgetId>,
    age: Map<usize, nat>,
    count: nat,
    w: usize,
)
    requires
        tree_shape(ch, parents, age, count),
        ch.contains_key(w),
    ensures
        subtree_order(ch, age, count, w).no_duplicates(),
    decreases count - age[w], ch[w].len() + 1,
{
    let k = ch[w].len();
    assert(kids_of(ch, w) == ch[w]);
    lemma_forest_distinct(ch, parents, age, count, w, k);
    lemma_forest_up(ch, parents, age, count, w, k);
    let f = forest_order(ch, age, count, w, k);
    let s = subtree_order(ch, age, count, w);
    assert(s == seq![WidgetId(w)] + f);
    assert forall|a: int, b: int| 0 <= a < b < s.len() implies s[a] != s[b] by {
        assert(s[b] == f[b - 1]);
        if a > 0 {
            assert(s[a] == f[a - 1]);
        }
    }
}

proof fn lemma_reverse_concat(a: Seq<WidgetId>, b: Seq<WidgetId>)
    ensures
        (a + b).reverse() == b.reverse() + a.reverse(),
{
    assert((a + b).reverse() =~= b.reverse() + a.reverse());
}

proof fn lemma_reverse_contains(s: Seq<WidgetId>)
    ensures
        forall|x: WidgetId| s.reverse().contains(x) <==> s.contains(x),
        s.no_duplicates() ==> s.reverse().no_duplicates(),
        s.reverse().len() == s.len(),
{
    let r = s.reverse();
    assert(r.len() == s.len());
    assert forall|x: WidgetId| r.contains(x) <==> s.contains(x) by {
        if r.contains(x) {
            let i = choose|i: int| 0 <= i < r.len() && r[i] == x;
            assert(s[s.len() - 1 - i] == x);
        }
        if s.contains(x) {
            let i = choose|i: int| 0 <= i < s.len() && s[i] == x;
            assert(r[s.len() - 1 - i] == x);
        }
    }
    if s.no_duplicates() {
        assert forall|a: int, b: int| 0 <= a < b < r.len() implies r[a] != r[b] by {
            assert(r[a] == s[s.len() - 1 - a]);
            assert(r[b] == s[s.len() - 1 - b]);
        }
    }
}

/// What the walk still owes for widget `w` on its stack: `w` alone once its
/// children were pushed, else its whole subtree in the reverse of draw order.
pub open spec fn walk_piece(tree: WidgetTree, w: WidgetId, discovered: Set<usize>) -> Seq<WidgetId> {
    if discovered.contains(w.0) {
        seq![w]
    } else {
        tree.subtree(w).reverse()
    }
}

/// What a walk with `stack` still yields, from the top of the stack down.
pub open spec fn walk_remaining(tree: WidgetTree, stack: Seq<WidgetId>, discovered: Set<usize>) -> Seq<WidgetId>
    decreases stack.len(),
{
    if stack.len() == 0 {
        Seq::empty()
    } else {
        walk_piece(tree, stack.last(), discovered) + walk_remaining(tree, stack.drop_last(), discovered)
    }
}

/// How many widgets on `stack` had their children pushed.
pub open spec fn discovered_on(stack: Seq<WidgetId>, discovered: Set<usize>) -> nat
    decreases stack.len(),
{
    if stack.len() == 0 {
        0
    } else {
        (if discovered.contains(stack.last().0) {
            1nat
        } else {
            0nat
        }) + discovered_on(stack.drop_last(), discovered)
    }
}

proof fn lemma_piece_nonempty(tree: WidgetTree, w: WidgetId, discovered: Set<usize>)
    requires
        tree.wf(),
        tree.contains(w),
    ensures
        walk_piece(tree, w, discovered).len() >= 1,
        walk_piece(tree, w, discovered).contains(w),
{
    lemma_subtree_up(tree.children(), tree.parents(), tree.age(), tree.count(), w.0);
    lemma_reverse_contains(tree.subtree(w));
    assert(tree.subtree(w)[0] == w);
    assert(tree.subtree(w).contains(w));
    if discovered.contains(w.0) {
        assert(seq![w][0] == w);
    }
}

proof fn lemma_remaining_facts(tree: WidgetTree, stack: Seq<WidgetId>, discovered: Set<usize>)
    requires
        tree.wf(),
        forall|i: int| 0 <= i < stack.len() ==> tree.contains(#[trigger] stack[i]),
    ensures
        discovered_on(stack, discovered) <= walk_remaining(tree, stack, discovered).len(),
        stack.len() == 0 <==> walk_remaining(tree, stack, discovered).len() == 0,
        forall|i: int|
            0 <= i < stack.len() ==> forall|y: WidgetId|
                walk_piece(tree, #[trigger] stack[i], discovered).contains(y) ==> walk_remaining(
                    tree,
                    stack,
                    discovered,
                ).contains(y),
    decreases stack.len(),
{
    if stack.len() > 0 {
        let lower = stack.drop_last();
        assert forall|i: int| 0 <= i < lower.len() implies tree.contains(#[trigger] lower[i]) by {
            assert(lower[i] == stack[i]);
        }
        lemma_remaining_facts(tree, lower, discovered);
        let t = stack.last();
        assert(tree.contains(stack[stack.len() - 1]));
        lemma_piece_nonempty(tree, t, discovered);
        let piece = walk_piece(tree, t, discovered);
        let rest = walk_remaining(tree, lower, discovered);
        let all = walk_remaining(tree, stack, discovered);
        assert(all == piece + rest);
        assert forall|i: int| 0 <= i < stack.len() implies forall|y: WidgetId|
            walk_piece(tree, #[trigger] stack[i], discovered).contains(y) ==> all.contains(y) by {
            assert forall|y: WidgetId| walk_piece(tree, stack[i], discovered).contains(y) implies all.contains(y) by {
                if i == stack.len() - 1 {
                    let m = choose|m: int| 0 <= m < piece.len() && piece[m] == y;
                    assert(all[m] == piece[m]);
                } else {
                    assert(stack[i] == lower[i]);
                    assert(rest.contains(y));
                    let m = choose|m: int| 0 <= m < rest.len() && rest[m] == y;
                    assert(all[piece.len() + m] == rest[m]);
                }
            }
        }
    }
}

/// Marking a widget that is not on the stack changes nothing the walk owes.
proof fn lemma_remaining_other_discovered(tree: WidgetTree, stack: Seq<WidgetId>, discovered: Set<usize>, x: usize)
    requires
        forall|i: int| 0 <= i < stack.len() ==> (#[trigger] stack[i]).0 != x,
    ensures
        walk_remaining(tree, stack, discovered.insert(x)) == walk_remaining(tree, stack, discovered),
        discovered_on(stack, discovered.insert(x)) == discovered_on(stack, discovered),
    decreases stack.len(),
{
    if stack.len() > 0 {
        let lower = stack.drop_last();
        assert forall|i: int| 0 <= i < lower.len() implies (#[trigger] lower[i]).0 != x by {
            assert(lower[i] == stack[i]);
        }
        lemma_remaining_other_discovered(tree, lower, discovered, x);
        assert(stack[stack.len() - 1].0 != x);
    }
}

/// Pushing the first `k` children of `t`, none of them marked, adds their
/// subtrees in the reverse of draw order on top of what the walk owes.
proof fn lemma_remaining_push_kids(tree: WidgetTree, base: Seq<WidgetId>, discovered: Set<usize>, t: WidgetId, k: nat)
    requires
        tree.wf(),
        tree.contains(t),
        k <= tree.children()[t.0].len(),
        forall|j: int| 0 <= j < k ==> !discovered.contains((#[trigger] tree.children()[t.0][j]).0),
    ensures
        walk_remaining(tree, base + tree.children()[t.0].take(k as int), discovered) == forest_order(
            tree.children(),
            tree.age(),
            tree.count(),
            t.0,
            k,
        ).reverse() + walk_remaining(tree, base, discovered),
        discovered_on(base + tree.children()[t.0].take(k as int), discovered) == discovered_on(base, discovered),
    decreases k,
{
    let ch = tree.children();
    let kids = ch[t.0];
    if k == 0 {
        assert(base + kids.take(0) =~= base);
        assert(forest_order(ch, tree.age(), tree.count(), t.0, 0).reverse() =~= Seq::<WidgetId>::empty());
        assert(Seq::<WidgetId>::empty() + walk_remaining(tree, base, discovered) =~= walk_remaining(tree, base, discovered));
    } else {
        lemma_remaining_push_kids(tree, base, discovered, t, (k - 1) as nat);
        let st = base + kids.take(k as int);
        assert(st.drop_last() =~= base + kids.take(k - 1));
        assert(st.last() == kids[k - 1]);
        let c = kids[k - 1];
        assert(!discovered.contains(c.0));
        let prev = forest_order(ch, tree.age(), tree.count(), t.0, (k - 1) as nat);
        let sub = subtree_order(ch, tree.age(), tree.count(), c.0);
        assert(kids_of(ch, t.0) == kids);
        assert(forest_order(ch, tree.age(), tree.count(), t.0, k) == prev + sub);
        lemma_reverse_concat(prev, sub);
        assert(tree.subtree(c) == sub);
        assert(walk_piece(tree, c, discovered) == sub.reverse());
        assert(walk_remaining(tree, st, discovered) == sub.reverse() + walk_remaining(tree, base + kids.take(k - 1), discovered));
        assert(walk_remaining(tree, st, discovered) =~= (prev + sub).reverse() + walk_remaining(tree, base, discovered));
    }
}

proof fn lemma_disjoint_concat(a: Seq<WidgetId>, b: Seq<WidgetId>, x: WidgetId)
    requires
        (a + b).no_duplicates(),
    ensures
        !(a.contains(x) && b.contains(x)),
        a.no_duplicates(),
        b.no_duplicates(),
{
    let ab = a + b;
    if a.contains(x) && b.contains(x) {
        let i = choose|i: int| 0 <= i < a.len() && a[i] == x;
        let j = choose|j: int| 0 <= j < b.len() && b[j] == x;
        assert(ab[i] == ab[a.len() + j]);
    }
    assert forall|i: int, j: int| 0 <= i < j < a.len() implies a[i] != a[j] by {
        assert(ab[i] == a[i] && ab[j] == a[j]);
    }
    assert forall|i: int, j: int| 0 <= i < j < b.len() implies b[i] != b[j] by {
        assert(ab[a.len() + i] == b[i] && ab[a.len() + j] == b[j]);
    }
}

/// Walks the widgets below a root in the reverse of the order they are drawn
/// in: depth first, each widget after its children, later siblings first.
pub struct DfsPostReverse {
    stack: Vec<WidgetId>,
    discovered: HashSet<usize>,
    finished: HashSet<usize>,
}

impl DfsPostReverse {
    /// The widgets the walk still yields, in order.
    pub closed spec fn remaining(&self, tree: WidgetTree) -> Seq<WidgetId> {
        walk_remaining(tree, self.stack@, self.discovered@)
    }

    /// The walk is one over `tree`: its widgets are in the tree, what it owes
    /// holds no widget twice nor one it already yielded, and no widget below
    /// one whose children are still to be pushed has been marked.
    pub closed spec fn walks(&self, tree: WidgetTree) -> bool {
        &&& forall|i: int| 0 <= i < self.stack@.len() ==> tree.contains(#[trigger] self.stack@[i])
        &&& self.remaining(tree).no_duplicates()
        &&& forall|x: WidgetId| #[trigger] self.remaining(tree).contains(x) ==> !self.finished@.contains(x.0)
        &&& forall|i: int|
            0 <= i < self.stack@.len() && !self.discovered@.contains((#[trigger] self.stack@[i]).0) ==> forall|
                y: WidgetId,
            | tree.subtree(self.stack@[i]).contains(y) ==> !self.discovered@.contains(y.0)
    }

    /// A walk over the subtree of `root`.
    pub fn new(tree: &WidgetTree, root: WidgetId) -> (d: Self)
        requires
            tree.wf(),
            tree.contains(root),
        ensures
            d.walks(*tree),
            d.remaining(*tree) == tree.subtree(root).reverse(),
    {
        let mut stack: Vec<WidgetId> = Vec::new();
        stack.push(root);
        let d = DfsPostReverse { stack, discovered: HashSet::new(), finished: HashSet::new() };
        proof {
            let st = d.stack@;
            assert(st.drop_last() =~= Seq::<WidgetId>::empty());
            assert(st.last() == root);
            assert(d.discovered@ =~= Set::<usize>::empty());
            assert(walk_remaining(*tree, st.drop_last(), d.discovered@) == Seq::<WidgetId>::empty());
            assert(walk_piece(*tree, root, d.discovered@) == tree.subtree(root).reverse());
            assert(d.remaining(*tree) =~= tree.subtree(root).reverse());
            lemma_subtree_distinct(tree.children(), tree.parents(), tree.age(), tree.count(), root.0);
            lemma_reverse_contains(tree.subtree(root));
        }
        d
    }

    /// The next widget of the walk, `None` once it is over.
    pub fn next(&mut self, tree: &WidgetTree) -> (w: Option<WidgetId>)
        requires
            tree.wf(),
            old(self).walks(*tree),
        ensures
            final(self).walks(*tree),
            old(self).remaining(*tree).len() == 0 ==> w is None && final(self).remaining(*tree) == old(self).remaining(*tree),
            old(self).remaining(*tree).len() > 0 ==> w == Some(old(self).remaining(*tree)[0])
                && final(self).remaining(*tree) == old(self).remaining(*tree).drop_first(),
    {
        let ghost rem0 = self.remaining(*tree);
        proof {
            lemma_remaining_facts(*tree, self.stack@, self.discovered@);
        }
        loop
            invariant
                tree.wf(),
                self.walks(*tree),
                self.remaining(*tree) == rem0,
                rem0 == old(self).remaining(*tree),
                discovered_on(self.stack@, self.discovered@) <= rem0.len(),
            decreases rem0.len() - discovered_on(self.stack@, self.discovered@),
        {
            proof {
                lemma_remaining_facts(*tree, self.stack@, self.discovered@);
            }
            if self.stack.len() == 0 {
                return None;
            }
            let t = self.stack[self.stack.len() - 1];
            let ghost st = self.stack@;
            let ghost disc = self.discovered@;
            let ghost fin = self.finished@;
            let ghost lower = st.drop_last();
            proof {
                assert(st.last() == t);
                assert(tree.contains(st[st.len() - 1]));
                assert(rem0 == walk_piece(*tree, t, disc) + walk_remaining(*tree, lower, disc));
                assert forall|i: int| 0 <= i < lower.len() implies tree.contains(#[trigger] lower[i]) by {
                    assert(lower[i] == st[i]);
                }
                lemma_remaining_facts(*tree, lower, disc);
                lemma_piece_nonempty(*tree, t, disc);
                lemma_disjoint_concat(walk_piece(*tree, t, disc), walk_remaining(*tree, lower, disc), t);
            }
            if self.discovered.insert(t.0) {
                // first visit: the children go on top, the last child uppermost
                let kids = tree.children_of(t);
                let ghost ch = tree.children();
                let ghost sub = tree.subtree(t);
                let ghost nk = ch[t.0].len();
                proof {
                    assert(kids@ == ch[t.0]);
                    lemma_step_down_facts(*tree, st, disc, t);
                }
                let mut i: usize = 0;
                while i < kids.len()
                    invariant
                        kids@ == ch[t.0],
                        i <= kids@.len(),
                        self.stack@ == st + kids@.take(i as int),
                        self.discovered@ == disc.insert(t.0),
                        self.finished@ == fin,
                    decreases kids@.len() - i,
                {
                    self.stack.push(kids[i]);
                    proof {
                        assert(kids@.take(i + 1) =~= kids@.take(i as int).push(kids@[i as int]));
                        assert(st + kids@.take(i + 1) =~= (st + kids@.take(i as int)).push(kids@[i as int]));
                    }
                    i = i + 1;
                }
                proof {
                    lemma_step_down(*tree, st, disc, fin, t);
                    lemma_remaining_facts(*tree, self.stack@, self.discovered@);
                }
            } else {
                self.stack.pop();
                proof {
                    assert(self.discovered@ =~= disc);
                    assert(self.stack@ == lower);
                    assert(walk_piece(*tree, t, disc) == seq![t]);
                    assert(rem0 == seq![t] + walk_remaining(*tree, lower, disc));
                    assert(rem0[0] == t);
                    assert(rem0.contains(t));
                }
                if self.finished.insert(t.0) {
                    proof {
                        let rest = walk_remaining(*tree, lower, disc);
                        assert(rest =~= rem0.drop_first());
                        lemma_disjoint_concat(seq![t], rest, t);
                        assert(self.remaining(*tree) == rest);
                        assert forall|i: int| 0 <= i < lower.len() implies tree.contains(#[trigger] lower[i]) by {
                            assert(lower[i] == st[i]);
                        }
                        assert forall|i: int|
                            0 <= i < lower.len() && !disc.contains((#[trigger] lower[i]).0) implies forall|y: WidgetId|
                                tree.subtree(lower[i]).contains(y) ==> !disc.contains(y.0) by {
                            assert(lower[i] == st[i]);
                        }
                        assert forall|x: WidgetId| #[trigger] rest.contains(x) implies !self.finished@.contains(x.0) by {
                            let m = choose|m: int| 0 <= m < rest.len() && rest[m] == x;
                            assert(rem0[m + 1] == x);
                            assert(rem0.contains(x));
                            if x.0 == t.0 {
                                assert(x == t);
                                lemma_disjoint_concat(seq![t], rest, t);
                                assert(seq![t][0] == t);
                            }
                        }
                    }
                    return Some(t);
                } else {
                    proof {
                        assert(!fin.contains(t.0));
                        assert(false);
                    }
                }
            }
        }
    }
}

/// Every widget of the subtree of the `j`-th child of `t` is in the forest
/// below the first `k` children of `t`, once `k` passes `j`.
proof fn lemma_forest_includes(tree: WidgetTree, t: WidgetId, j: int, k: nat)
    requires
        tree.wf(),
        tree.contains(t),
        0 <= j < k <= tree.children()[t.0].len(),
    ensures
        forall|y: WidgetId|
            tree.subtree(tree.children()[t.0][j]).contains(y) ==> #[trigger] forest_order(
                tree.children(),
                tree.age(),
                tree.count(),
                t.0,
                k,
            ).contains(y),
    decreases k,
{
    let ch = tree.children();
    let prev = forest_order(ch, tree.age(), tree.count(), t.0, (k - 1) as nat);
    let sub = subtree_order(ch, tree.age(), tree.count(), ch[t.0][k - 1].0);
    assert(kids_of(ch, t.0) == ch[t.0]);
    assert(forest_order(ch, tree.age(), tree.count(), t.0, k) == prev + sub);
    if j < k - 1 {
        lemma_forest_includes(tree, t, j, (k - 1) as nat);
    }
    assert forall|y: WidgetId| tree.subtree(ch[t.0][j]).contains(y) implies #[trigger] forest_order(
        ch,
        tree.age(),
        tree.count(),
        t.0,
        k,
    ).contains(y) by {
        let whole = prev + sub;
        if j == k - 1 {
            let m = choose|m: int| 0 <= m < sub.len() && sub[m] == y;
            assert(whole[prev.len() + m] == y);
        } else {
            assert(prev.contains(y));
            let m = choose|m: int| 0 <= m < prev.len() && prev[m] == y;
            assert(whole[m] == y);
        }
    }
}

/// Facts about marking the widget `t` on top of the stack for the first time.
proof fn lemma_step_down_facts(tree: WidgetTree, st: Seq<WidgetId>, disc: Set<usize>, t: WidgetId)
    requires
        tree.wf(),
        st.len() > 0,
        st.last() == t,
        !disc.contains(t.0),
        forall|i: int| 0 <= i < st.len() ==> tree.contains(#[trigger] st[i]),
        walk_remaining(tree, st, disc).no_duplicates(),
        forall|i: int|
            0 <= i < st.len() && !disc.contains((#[trigger] st[i]).0) ==> forall|y: WidgetId|
                tree.subtree(st[i]).contains(y) ==> !disc.contains(y.0),
    ensures
        forall|i: int| 0 <= i < st.len() - 1 ==> (#[trigger] st[i]).0 != t.0,
        forall|i: int|
            0 <= i < st.len() - 1 && !disc.contains((#[trigger] st[i]).0) ==> !tree.subtree(st[i]).contains(t),
        forall|j: int|
            0 <= j < tree.children()[t.0].len() ==> !disc.insert(t.0).contains(
                (#[trigger] tree.children()[t.0][j]).0,
            ),
        forall|j: int|
            0 <= j < tree.children()[t.0].len() ==> forall|y: WidgetId|
                tree.subtree(#[trigger] tree.children()[t.0][j]).contains(y) ==> !disc.insert(t.0).contains(y.0),
{
    let ch = tree.children();
    let lower = st.drop_last();
    assert(tree.contains(st[st.len() - 1]));
    assert forall|i: int| 0 <= i < lower.len() implies tree.contains(#[trigger] lower[i]) by {
        assert(lower[i] == st[i]);
    }
    lemma_remaining_facts(tree, lower, disc);
    lemma_piece_nonempty(tree, t, disc);
    let piece = walk_piece(tree, t, disc);
    let rest = walk_remaining(tree, lower, disc);
    assert(walk_remaining(tree, st, disc) == piece + rest);
    assert forall|i: int| 0 <= i < st.len() - 1 implies (#[trigger] st[i]).0 != t.0 by {
        assert(lower[i] == st[i]);
        if st[i].0 == t.0 {
            assert(st[i] == t);
            lemma_piece_nonempty(tree, lower[i], disc);
            assert(rest.contains(t));
            lemma_disjoint_concat(piece, rest, t);
        }
    }
    assert forall|i: int|
        0 <= i < st.len() - 1 && !disc.contains((#[trigger] st[i]).0) implies !tree.subtree(st[i]).contains(t) by {
        assert(lower[i] == st[i]);
        if tree.subtree(st[i]).contains(t) {
            lemma_reverse_contains(tree.subtree(st[i]));
            assert(walk_piece(tree, lower[i], disc).contains(t));
            assert(rest.contains(t));
            lemma_disjoint_concat(piece, rest, t);
        }
    }
    let sub = tree.subtree(t);
    assert(!disc.contains(st[st.len() - 1].0));
    lemma_subtree_up(ch, tree.parents(), tree.age(), tree.count(), t.0);
    let nk = ch[t.0].len();
    let f = forest_order(ch, tree.age(), tree.count(), t.0, nk);
    assert(kids_of(ch, t.0) == ch[t.0]);
    assert(sub == seq![t] + f);
    assert forall|j: int| 0 <= j < nk implies forall|y: WidgetId|
        tree.subtree(#[trigger] ch[t.0][j]).contains(y) ==> !disc.insert(t.0).contains(y.0) by {
        let c = ch[t.0][j];
        assert(ch.contains_key(c.0));
        assert(tree.age()[c.0] > tree.age()[t.0]);
        lemma_subtree_up(ch, tree.parents(), tree.age(), tree.count(), c.0);
        lemma_forest_includes(tree, t, j, nk);
        assert forall|y: WidgetId| tree.subtree(c).contains(y) implies !disc.insert(t.0).contains(y.0) by {
            assert(f.contains(y));
            let m = choose|m: int| 0 <= m < f.len() && f[m] == y;
            assert(sub[m + 1] == y);
            assert(sub.contains(y));
            let n = choose|n: int| 0 <= n < tree.subtree(c).len() && tree.subtree(c)[n] == y;
            assert(tree.age()[y.0] >= tree.age()[c.0]);
        }
    }
    assert forall|j: int| 0 <= j < nk implies !disc.insert(t.0).contains((#[trigger] ch[t.0][j]).0) by {
        let c = ch[t.0][j];
        assert(ch.contains_key(c.0));
        lemma_subtree_up(ch, tree.parents(), tree.age(), tree.count(), c.0);
        assert(tree.subtree(c)[0] == c);
        assert(tree.subtree(c).contains(c));
    }
}

/// After the first visit of `t`, with its children pushed, the walk still owes
/// the same widgets, and stays a walk over the tree.
proof fn lemma_step_down(tree: WidgetTree, st: Seq<WidgetId>, disc: Set<usize>, fin: Set<usize>, t: WidgetId)
    requires
        tree.wf(),
        st.len() > 0,
        st.last() == t,
        !disc.contains(t.0),
        forall|i: int| 0 <= i < st.len() ==> tree.contains(#[trigger] st[i]),
        walk_remaining(tree, st, disc).no_duplicates(),
        forall|x: WidgetId| #[trigger] walk_remaining(tree, st, disc).contains(x) ==> !fin.contains(x.0),
        forall|i: int|
            0 <= i < st.len() && !disc.contains((#[trigger] st[i]).0) ==> forall|y: WidgetId|
                tree.subtree(st[i]).contains(y) ==> !disc.contains(y.0),
    ensures
        ({
            let st2 = st + tree.children()[t.0].take(tree.children()[t.0].len() as int);
            let disc2 = disc.insert(t.0);
            &&& walk_remaining(tree, st2, disc2) == walk_remaining(tree, st, disc)
            &&& discovered_on(st2, disc2) == discovered_on(st, disc) + 1
            &&& forall|i: int| 0 <= i < st2.len() ==> tree.contains(#[trigger] st2[i])
            &&& forall|i: int|
                0 <= i < st2.len() && !disc2.contains((#[trigger] st2[i]).0) ==> forall|y: WidgetId|
                    tree.subtree(st2[i]).contains(y) ==> !disc2.contains(y.0)
        }),
{
    let ch = tree.children();
    let nk = ch[t.0].len();
    let kids = ch[t.0];
    let st2 = st + kids.take(nk as int);
    let disc2 = disc.insert(t.0);
    let lower = st.drop_last();
    lemma_step_down_facts(tree, st, disc, t);
    assert(tree.contains(st[st.len() - 1]));
    // what is owed: the children's subtrees, then t, then the rest
    lemma_remaining_push_kids(tree, st, disc2, t, nk);
    assert forall|i: int| 0 <= i < lower.len() implies (#[trigger] lower[i]).0 != t.0 by {
        assert(lower[i] == st[i]);
    }
    lemma_remaining_other_discovered(tree, lower, disc, t.0);
    let f = forest_order(ch, tree.age(), tree.count(), t.0, nk);
    assert(kids_of(ch, t.0) == ch[t.0]);
    assert(tree.subtree(t) == seq![t] + f);
    lemma_reverse_concat(seq![t], f);
    assert(seq![t].reverse() =~= seq![t]);
    assert(walk_remaining(tree, st, disc2) == seq![t] + walk_remaining(tree, lower, disc2));
    assert(walk_remaining(tree, st, disc) == tree.subtree(t).reverse() + walk_remaining(tree, lower, disc));
    assert(walk_remaining(tree, st2, disc2) =~= walk_remaining(tree, st, disc));
    // one more widget on the stack is marked
    assert(discovered_on(st, disc2) == 1 + discovered_on(lower, disc2));
    assert(discovered_on(st, disc) == discovered_on(lower, disc));
    // the widgets on the stack are in the tree
    assert forall|i: int| 0 <= i < st2.len() implies tree.contains(#[trigger] st2[i]) by {
        if i < st.len() {
            assert(st2[i] == st[i]);
        } else {
            assert(st2[i] == kids[i - st.len()]);
            assert(ch.contains_key(kids[i - st.len()].0));
        }
    }
    // below an unmarked widget nothing is marked
    assert forall|i: int| 0 <= i < st2.len() && !disc2.contains((#[trigger] st2[i]).0) implies forall|y: WidgetId|
        tree.subtree(st2[i]).contains(y) ==> !disc2.contains(y.0) by {
        if i < st.len() - 1 {
            assert(st2[i] == st[i]);
            assert forall|y: WidgetId| tree.subtree(st2[i]).contains(y) implies !disc2.contains(y.0) by {
                if y.0 == t.0 {
                    assert(y == t);
                }
            }
        } else if i == st.len() - 1 {
            assert(st2[i] == t);
        } else {
            let j = i - st.len();
            assert(st2[i] == kids[j]);
        }
    }
}

/// Finds the widgets under the cursor, topmost first: the walk in reverse draw
/// order, keeping the widgets that the hit test says are under the cursor.
pub struct CursorWidgetWalker {
    dfs: DfsPostReverse,
}

impl CursorWidgetWalker {
    /// The widgets the walk has yet to test, in order.
    pub closed spec fn remaining(&self, tree: WidgetTree) -> Seq<WidgetId> {
        self.dfs.remaining(tree)
    }

    /// The walk is one over `tree`.
    pub closed spec fn walks(&self, tree: WidgetTree) -> bool {
        self.dfs.walks(tree)
    }

    /// A walk over the subtree of `root`.
    pub fn new(tree: &WidgetTree, root: WidgetId) -> (c: Self)
        requires
            tree.wf(),
            tree.contains(root),
        ensures
            c.walks(*tree),
            c.remaining(*tree) == tree.subtree(root).reverse(),
    {
        CursorWidgetWalker { dfs: DfsPostReverse::new(tree, root) }
    }

    /// The next widget that `is_over` says is under the cursor; the widgets
    /// walked past on the way were tested and are not.
    pub fn next<F: Fn(WidgetId) -> bool>(&mut self, tree: &WidgetTree, is_over: F) -> (w: Option<WidgetId>)
        requires
            tree.wf(),
            old(self).walks(*tree),
            forall|x: WidgetId| call_requires(is_over, (x,)),
        ensures
            final(self).walks(*tree),
            match w {
                Some(found) => exists|k: int|
                    0 <= k < old(self).remaining(*tree).len() && old(self).remaining(*tree)[k] == found
                        && call_ensures(is_over, (found,), true) && (forall|j: int|
                        0 <= j < k ==> call_ensures(is_over, (#[trigger] old(self).remaining(*tree)[j],), false))
                        && final(self).remaining(*tree) == old(self).remaining(*tree).skip(k + 1),
                None => final(self).remaining(*tree).len() == 0 && forall|j: int|
                    0 <= j < old(self).remaining(*tree).len() ==> call_ensures(
                        is_over,
                        (#[trigger] old(self).remaining(*tree)[j],),
                        false,
                    ),
            },
    {
        let ghost rem0 = self.remaining(*tree);
        let ghost mut k: int = 0;
        loop
            invariant
                tree.wf(),
                self.walks(*tree),
                rem0 == old(self).remaining(*tree),
                forall|x: WidgetId| call_requires(is_over, (x,)),
                0 <= k <= rem0.len(),
                self.remaining(*tree) == rem0.skip(k),
                forall|j: int| 0 <= j < k ==> call_ensures(is_over, (#[trigger] rem0[j],), false),
            decreases rem0.len() - k,
        {
            match self.dfs.next(tree) {
                Some(widget) => {
                    proof {
                        assert(rem0.skip(k)[0] == rem0[k]);
                        assert(rem0.skip(k).drop_first() =~= rem0.skip(k + 1));
                    }
                    if is_over(widget) {
                        return Some(widget);
                    }
                    proof {
                        k = k + 1;
                    }
                },
                None => {
                    proof {
                        assert(rem0.skip(k).len() == 0);
                    }
                    return None;
                },
            }
        }
    }
}

/// A walk visits each widget of the subtree once and only those, and the root
/// last, after every widget drawn over it.
pub proof fn law_walk_visits_subtree_once(tree: WidgetTree, root: WidgetId)
    requires
        tree.wf(),
        tree.contains(root),
    ensures
        tree.subtree(root).reverse().no_duplicates(),
        forall|x: WidgetId| tree.subtree(root).reverse().contains(x) <==> tree.subtree(root).contains(x),
        tree.subtree(root).reverse().last() == root,
{
    lemma_subtree_distinct(tree.children(), tree.parents(), tree.age(), tree.count(), root.0);
    lemma_subtree_up(tree.children(), tree.parents(), tree.age(), tree.count(), root.0);
    lemma_reverse_contains(tree.subtree(root));
}

} // verus!
