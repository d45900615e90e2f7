use vstd::prelude::*;
use vstd::multiset::Multiset;
use crate::heap::{Heap, Priority};
use crate::sl_list::List;

verus! {

/// A binomial tree: a root element and its list of subtrees, the subtree of
/// highest order first. A leaf has no list.
struct BinomialTree<T> {
    root: T,
    children: Option<List<BinomialTree<T>>>,
}

/// The subtrees of `t`, the one of highest order first.
spec fn kids<T>(t: BinomialTree<T>) -> Seq<BinomialTree<T>> {
    match t.children {
        Some(l) => l@,
        None => Seq::empty(),
    }
}

/// The order of a tree: how many children its root has.
spec fn order<T>(t: BinomialTree<T>) -> nat {
    kids(t).len()
}

/// The elements of `t`, read as a tree of order `k`.
spec fn tree_elems<T>(t: BinomialTree<T>, k: nat) -> Multiset<T>
    decreases k, 1nat,
{
    if kids(t).len() == k {
        run_elems(kids(t)).insert(t.root)
    } else {
        Multiset::singleton(t.root)
    }
}

/// The elements of a run of subtrees whose orders count down to zero.
spec fn run_elems<T>(cs: Seq<BinomialTree<T>>) -> Multiset<T>
    decreases cs.len(), 0nat,
{
    if cs.len() == 0 {
        Multiset::empty()
    } else {
        tree_elems(cs[0], (cs.len() - 1) as nat).add(run_elems(cs.drop_first()))
    }
}

/// `t` is a heap-ordered binomial tree of order `k`: `k` children of orders
/// `k-1` down to `0`, and no element below the root ranks under it.
spec fn tree_ok<T: Priority>(t: BinomialTree<T>, k: nat) -> bool
    decreases k, 1nat,
{
    &&& kids(t).len() == k
    &&& run_ok(kids(t))
    &&& forall|x: T| run_elems(kids(t)).contains(x) ==> t.root.rank() <= x.rank()
}

/// Each subtree of the run is well formed, with orders counting down to zero.
spec fn run_ok<T: Priority>(cs: Seq<BinomialTree<T>>) -> bool
    decreases cs.len(), 0nat,
{
    cs.len() == 0 || (tree_ok(cs[0], (cs.len() - 1) as nat) && run_ok(cs.drop_first()))
}

/// The elements of a forest, each tree read at its own order.
spec fn forest_elems<T>(s: Seq<BinomialTree<T>>) -> Multiset<T>
    decreases s.len(),
{
    if s.len() == 0 {
        Multiset::empty()
    } else {
        tree_elems(s[0], order(s[0])).add(forest_elems(s.drop_first()))
    }
}

/// Every tree of the forest is well formed.
spec fn trees_ok<T: Priority>(s: Seq<BinomialTree<T>>) -> bool {
    forall|i: int| 0 <= i < s.len() ==> #[trigger] tree_ok(s[i], order(s[i]))
}

/// A forest whose trees are well formed and have strictly increasing orders.
spec fn forest_ok<T: Priority>(s: Seq<BinomialTree<T>>) -> bool {
    &&& trees_ok(s)
    &&& forall|i: int, j: int| 0 <= i < j < s.len() ==> order(#[trigger] s[i]) < order(#[trigger] s[j])
}

/// A forest whose trees are well formed and have strictly decreasing orders.
spec fn forest_desc<T: Priority>(s: Seq<BinomialTree<T>>) -> bool {
    &&& trees_ok(s)
    &&& forall|i: int, j: int| 0 <= i < j < s.len() ==> order(#[trigger] s[i]) > order(#[trigger] s[j])
}

proof fn lemma_tree_len<T>(t: BinomialTree<T>, k: nat)
    ensures
        kids(t).len() == k ==> tree_elems(t, k).len() >= k + 1,
        tree_elems(t, k).len() >= 1,
    decreases k, 1nat,
{
    if kids(t).len() == k {
        lemma_run_len(kids(t));
    }
}

proof fn lemma_run_len<T>(cs: Seq<BinomialTree<T>>)
    ensures
        run_elems(cs).len() >= cs.len(),
    decreases cs.len(), 0nat,
{
    if cs.len() > 0 {
        lemma_tree_len(cs[0], (cs.len() - 1) as nat);
        lemma_run_len(cs.drop_first());
    }
}

proof fn lemma_forest_len<T>(s: Seq<BinomialTree<T>>)
    ensures
        forest_elems(s).len() >= s.len(),
    decreases s.len(),
{
    if s.len() > 0 {
        lemma_tree_len(s[0], order(s[0]));
        lemma_forest_len(s.drop_first());
    }
}

proof fn lemma_forest_cons<T>(t: BinomialTree<T>, s: Seq<BinomialTree<T>>)
    ensures
        forest_elems(seq![t] + s) == tree_elems(t, order(t)).add(forest_elems(s)),
{
    let c = seq![t] + s;
    assert(c[0] == t);
    assert(c.drop_first() =~= s);
}

proof fn lemma_forest_push<T>(s: Seq<BinomialTree<T>>, t: BinomialTree<T>)
    ensures
        forest_elems(s.push(t)) == forest_elems(s).add(tree_elems(t, order(t))),
    decreases s.len(),
{
    if s.len() == 0 {
        assert(s.push(t).drop_first() =~= s);
        assert(forest_elems(s.push(t)) =~= forest_elems(s).add(tree_elems(t, order(t))));
    } else {
        assert(s.push(t).drop_first() =~= s.drop_first().push(t));
        lemma_forest_push(s.drop_first(), t);
        assert(forest_elems(s.push(t)) =~= forest_elems(s).add(tree_elems(t, order(t))));
    }
}

proof fn lemma_forest_reverse<T>(s: Seq<BinomialTree<T>>)
    ensures
        forest_elems(s.reverse()) == forest_elems(s),
    decreases s.len(),
{
    if s.len() > 0 {
        assert(s.reverse() =~= s.drop_first().reverse().push(s[0]));
        lemma_forest_reverse(s.drop_first());
        lemma_forest_push(s.drop_first().reverse(), s[0]);
        assert(forest_elems(s.reverse()) =~= forest_elems(s));
    }
}

proof fn lemma_forest_append<T>(a: Seq<BinomialTree<T>>, b: Seq<BinomialTree<T>>)
    ensures
        forest_elems(a + b) == forest_elems(a).add(forest_elems(b)),
    decreases a.len(),
{
    if a.len() == 0 {
        assert(a + b =~= b);
        assert(forest_elems(a + b) =~= forest_elems(a).add(forest_elems(b)));
    } else {
        assert((a + b).drop_first() =~= a.drop_first() + b);
        lemma_forest_append(a.drop_first(), b);
        assert(forest_elems(a + b) =~= forest_elems(a).add(forest_elems(b)));
    }
}

/// A run of subtrees, read lowest order first, is a forest in the heap's sense.
proof fn lemma_run_forest<T: Priority>(cs: Seq<BinomialTree<T>>)
    requires
        run_ok(cs),
    ensures
        forall|i: int| 0 <= i < cs.len() ==> order(#[trigger] cs[i]) == cs.len() - 1 - i,
        forest_desc(cs),
        forest_ok(cs.reverse()),
        forest_elems(cs) == run_elems(cs),
        forest_elems(cs.reverse()) == run_elems(cs),
    decreases cs.len(),
{
    if cs.len() > 0 {
        let rest = cs.drop_first();
        lemma_run_forest(rest);
        assert forall|i: int| 0 <= i < cs.len() implies order(#[trigger] cs[i]) == cs.len() - 1 - i
            && tree_ok(cs[i], order(cs[i])) by {
            if i > 0 {
                assert(cs[i] == rest[i - 1]);
                assert(order(rest[i - 1]) == rest.len() - 1 - (i - 1));
                assert(tree_ok(rest[i - 1], order(rest[i - 1])));
            } else {
                assert(tree_ok(cs[0], (cs.len() - 1) as nat));
            }
        }
        assert(forest_elems(cs) == run_elems(cs));
    }
    let r = cs.reverse();
    assert forall|i: int| 0 <= i < r.len() implies #[trigger] tree_ok(r[i], order(r[i])) by {
        assert(r[i] == cs[cs.len() - 1 - i]);
    }
    assert forall|i: int, j: int| 0 <= i < j < r.len() implies order(#[trigger] r[i]) < order(#[trigger] r[j]) by {
        assert(r[i] == cs[cs.len() - 1 - i]);
        assert(r[j] == cs[cs.len() - 1 - j]);
    }
    lemma_forest_reverse(cs);
}

impl<T: Priority> BinomialTree<T> {
    /// A tree of order zero holding `x` alone.
    fn new(x: T) -> (r: Self)
        ensures
            tree_ok(r, 0),
            order(r) == 0,
            tree_elems(r, 0) == Multiset::singleton(x),
    {
        let r = BinomialTree { root: x, children: None };
        proof {
            assert(run_elems(kids(r)) =~= Multiset::empty());
            assert(tree_elems(r, 0) =~= Multiset::singleton(x));
        }
        r
    }

    fn order(&self) -> (r: usize)
        ensures
            r == order(*self),
    {
        match &self.children {
            Some(l) => l.length(),
            None => 0,
        }
    }

    /// Makes `other` the first child of this tree, raising its order by one.
    /// Heap order is kept only if the caller has chosen as `self` the tree
    /// with the lesser root.
    fn link(&mut self, other: BinomialTree<T>)
        requires
            order(*old(self)) == order(other),
            order(other) < usize::MAX,
        ensures
            final(self).root == old(self).root,
            kids(*final(self)) == seq![other] + kids(*old(self)),
    {
        match &mut self.children {
            Some(l) => l.push(other),
            None => {
                let mut l = List::new();
                l.push(other);
                self.children = Some(l);
            },
        }
    }
}

/// Joins two trees of one order into a tree of the next order, whose root is
/// the lesser of the two roots.
fn join<T: Priority>(a: BinomialTree<T>, b: BinomialTree<T>) -> (r: BinomialTree<T>)
    requires
        order(a) == order(b),
        tree_ok(a, order(a)),
        tree_ok(b, order(b)),
        order(a) < usize::MAX,
    ensures
        order(r) == order(a) + 1,
        tree_ok(r, order(r)),
        tree_elems(r, order(r)) == tree_elems(a, order(a)).add(tree_elems(b, order(b))),
        joined(a, b, r),
{
    let mut a = a;
    let mut b = b;
    if b.root.at_most(&a.root) {
        std::mem::swap(&mut a, &mut b);
    }
    let ghost k = order(a);
    let ghost old_a = a;
    a.link(b);
    proof {
        let cs = kids(a);
        assert(cs[0] == b);
        assert(cs.drop_first() =~= kids(old_a));
        assert(run_elems(cs) =~= tree_elems(b, k).add(run_elems(kids(old_a))));
        assert(run_ok(cs));
        assert forall|x: T| run_elems(cs).contains(x) implies a.root.rank() <= x.rank() by {
            if tree_elems(b, k).contains(x) {
                if x != b.root {
                    assert(run_elems(kids(b)).contains(x));
                }
            } else {
                assert(run_elems(kids(old_a)).contains(x));
            }
        }
        assert(tree_elems(a, k + 1) =~= tree_elems(old_a, k).add(tree_elems(b, k)));
    }
    a
}

/// `r` is `a` and `b` joined: the tree with the lesser root on top (`b` on a
/// tie), the other one its first child.
spec fn joined<T: Priority>(a: BinomialTree<T>, b: BinomialTree<T>, r: BinomialTree<T>) -> bool {
    if b.root.rank() <= a.root.rank() {
        r.root == b.root && kids(r) == seq![a] + kids(b)
    } else {
        r.root == a.root && kids(r) == seq![b] + kids(a)
    }
}

/// `out` is what melding emits, lowest order first, from a pending `carry`
/// and the forests `xs` and `ys`. With a carry: if both forests start at its
/// order, the carry is emitted and their first trees are joined into the new
/// carry; if one does, the carry is joined with its first tree; if neither
/// does, the carry is emitted. Without a carry: the first tree of lower order
/// is emitted, and two first trees of one order are joined into the carry.
spec fn melds_to<T: Priority>(
    carry: Option<BinomialTree<T>>,
    xs: Seq<BinomialTree<T>>,
    ys: Seq<BinomialTree<T>>,
    out: Seq<BinomialTree<T>>,
) -> bool
    decreases xs.len() + ys.len() + (if carry is Some { 1int } else { 0int }),
{
    match carry {
        Some(c) => {
            let xm = xs.len() > 0 && order(xs[0]) == order(c);
            let ym = ys.len() > 0 && order(ys[0]) == order(c);
            if xm && ym {
                out.len() > 0 && out[0] == c && exists|t: BinomialTree<T>|
                    joined(xs[0], ys[0], t) && melds_to(Some(t), xs.drop_first(), ys.drop_first(), out.drop_first())
            } else if xm {
                exists|t: BinomialTree<T>| joined(c, xs[0], t) && melds_to(Some(t), xs.drop_first(), ys, out)
            } else if ym {
                exists|t: BinomialTree<T>| joined(c, ys[0], t) && melds_to(Some(t), xs, ys.drop_first(), out)
            } else {
                out.len() > 0 && out[0] == c && melds_to(None, xs, ys, out.drop_first())
            }
        },
        None => {
            if xs.len() > 0 && (ys.len() == 0 || order(xs[0]) < order(ys[0])) {
                out.len() > 0 && out[0] == xs[0] && melds_to(None, xs.drop_first(), ys, out.drop_first())
            } else if ys.len() > 0 && (xs.len() == 0 || order(ys[0]) < order(xs[0])) {
                out.len() > 0 && out[0] == ys[0] && melds_to(None, xs, ys.drop_first(), out.drop_first())
            } else if xs.len() > 0 {
                exists|t: BinomialTree<T>| joined(xs[0], ys[0], t) && melds_to(Some(t), xs.drop_first(), ys.drop_first(), out)
            } else {
                out.len() == 0
            }
        },
    }
}

/// Whatever melding emits from the state `(c, px, py)` completes, after the
/// trees already emitted (`r`, most recent first), what melding `x0` and `y0`
/// emits.
spec fn meld_prefix<T: Priority>(
    x0: Seq<BinomialTree<T>>,
    y0: Seq<BinomialTree<T>>,
    c: Option<BinomialTree<T>>,
    px: Seq<BinomialTree<T>>,
    py: Seq<BinomialTree<T>>,
    r: Seq<BinomialTree<T>>,
) -> bool {
    forall|out: Seq<BinomialTree<T>>| #[trigger] melds_to(c, px, py, out) ==> melds_to(None, x0, y0, r.reverse() + out)
}

proof fn lemma_advance<T: Priority>(
    x0: Seq<BinomialTree<T>>,
    y0: Seq<BinomialTree<T>>,
    c: Option<BinomialTree<T>>,
    px: Seq<BinomialTree<T>>,
    py: Seq<BinomialTree<T>>,
    r: Seq<BinomialTree<T>>,
    c2: Option<BinomialTree<T>>,
    px2: Seq<BinomialTree<T>>,
    py2: Seq<BinomialTree<T>>,
    e: Seq<BinomialTree<T>>,
)
    requires
        meld_prefix(x0, y0, c, px, py, r),
        e.len() <= 1,
        forall|out: Seq<BinomialTree<T>>| #[trigger] melds_to(c2, px2, py2, out) ==> melds_to(c, px, py, e + out),
    ensures
        meld_prefix(x0, y0, c2, px2, py2, e + r),
{
    assert forall|out: Seq<BinomialTree<T>>| #[trigger] melds_to(c2, px2, py2, out) implies melds_to(None, x0, y0,
        (e + r).reverse() + out) by {
        assert(melds_to(c, px, py, e + out));
        assert((e + r).reverse() + out =~= r.reverse() + (e + out));
    }
}

proof fn lemma_emit_x<T: Priority>(px: Seq<BinomialTree<T>>, py: Seq<BinomialTree<T>>)
    requires
        px.len() > 0,
        py.len() == 0 || order(px[0]) < order(py[0]),
    ensures
        forall|out: Seq<BinomialTree<T>>| #[trigger] melds_to(None, px.drop_first(), py, out) ==> melds_to(None, px, py,
            seq![px[0]] + out),
{
    assert forall|out: Seq<BinomialTree<T>>| #[trigger] melds_to(None, px.drop_first(), py, out) implies melds_to(None,
        px, py, seq![px[0]] + out) by {
        assert((seq![px[0]] + out).drop_first() =~= out);
    }
}

proof fn lemma_emit_y<T: Priority>(px: Seq<BinomialTree<T>>, py: Seq<BinomialTree<T>>)
    requires
        py.len() > 0,
        px.len() == 0 || order(py[0]) < order(px[0]),
    ensures
        forall|out: Seq<BinomialTree<T>>| #[trigger] melds_to(None, px, py.drop_first(), out) ==> melds_to(None, px, py,
            seq![py[0]] + out),
{
    assert forall|out: Seq<BinomialTree<T>>| #[trigger] melds_to(None, px, py.drop_first(), out) implies melds_to(None,
        px, py, seq![py[0]] + out) by {
        assert((seq![py[0]] + out).drop_first() =~= out);
    }
}

proof fn lemma_link_xy<T: Priority>(px: Seq<BinomialTree<T>>, py: Seq<BinomialTree<T>>, t: BinomialTree<T>)
    requires
        px.len() > 0,
        py.len() > 0,
        order(px[0]) == order(py[0]),
        joined(px[0], py[0], t),
    ensures
        forall|out: Seq<BinomialTree<T>>| #[trigger] melds_to(Some(t), px.drop_first(), py.drop_first(), out)
            ==> melds_to(None, px, py, Seq::<BinomialTree<T>>::empty() + out),
{
    assert forall|out: Seq<BinomialTree<T>>| #[trigger] melds_to(Some(t), px.drop_first(), py.drop_first(), out)
        implies melds_to(None, px, py, Seq::<BinomialTree<T>>::empty() + out) by {
        assert(Seq::<BinomialTree<T>>::empty() + out =~= out);
    }
}

proof fn lemma_carry_emit_link<T: Priority>(
    c: BinomialTree<T>,
    px: Seq<BinomialTree<T>>,
    py: Seq<BinomialTree<T>>,
    t: BinomialTree<T>,
)
    requires
        px.len() > 0,
        py.len() > 0,
        order(px[0]) == order(c),
        order(py[0]) == order(c),
        joined(px[0], py[0], t),
    ensures
        forall|out: Seq<BinomialTree<T>>| #[trigger] melds_to(Some(t), px.drop_first(), py.drop_first(), out)
            ==> melds_to(Some(c), px, py, seq![c] + out),
{
    assert forall|out: Seq<BinomialTree<T>>| #[trigger] melds_to(Some(t), px.drop_first(), py.drop_first(), out)
        implies melds_to(Some(c), px, py, seq![c] + out) by {
        assert((seq![c] + out).drop_first() =~= out);
    }
}

proof fn lemma_carry_link_x<T: Priority>(
    c: BinomialTree<T>,
    px: Seq<BinomialTree<T>>,
    py: Seq<BinomialTree<T>>,
    t: BinomialTree<T>,
)
    requires
        px.len() > 0,
        order(px[0]) == order(c),
        !(py.len() > 0 && order(py[0]) == order(c)),
        joined(c, px[0], t),
    ensures
        forall|out: Seq<BinomialTree<T>>| #[trigger] melds_to(Some(t), px.drop_first(), py, out)
            ==> melds_to(Some(c), px, py, Seq::<BinomialTree<T>>::empty() + out),
{
    assert forall|out: Seq<BinomialTree<T>>| #[trigger] melds_to(Some(t), px.drop_first(), py, out)
        implies melds_to(Some(c), px, py, Seq::<BinomialTree<T>>::empty() + out) by {
        assert(Seq::<BinomialTree<T>>::empty() + out =~= out);
    }
}

proof fn lemma_carry_link_y<T: Priority>(
    c: BinomialTree<T>,
    px: Seq<BinomialTree<T>>,
    py: Seq<BinomialTree<T>>,
    t: BinomialTree<T>,
)
    requires
        py.len() > 0,
        order(py[0]) == order(c),
        !(px.len() > 0 && order(px[0]) == order(c)),
        joined(c, py[0], t),
    ensures
        forall|out: Seq<BinomialTree<T>>| #[trigger] melds_to(Some(t), px, py.drop_first(), out)
            ==> melds_to(Some(c), px, py, Seq::<BinomialTree<T>>::empty() + out),
{
    assert forall|out: Seq<BinomialTree<T>>| #[trigger] melds_to(Some(t), px, py.drop_first(), out)
        implies melds_to(Some(c), px, py, Seq::<BinomialTree<T>>::empty() + out) by {
        assert(Seq::<BinomialTree<T>>::empty() + out =~= out);
    }
}

proof fn lemma_carry_emit<T: Priority>(c: BinomialTree<T>, px: Seq<BinomialTree<T>>, py: Seq<BinomialTree<T>>)
    requires
        !(px.len() > 0 && order(px[0]) == order(c)),
        !(py.len() > 0 && order(py[0]) == order(c)),
    ensures
        forall|out: Seq<BinomialTree<T>>| #[trigger] melds_to(None, px, py, out) ==> melds_to(Some(c), px, py,
            seq![c] + out),
{
    assert forall|out: Seq<BinomialTree<T>>| #[trigger] melds_to(None, px, py, out) implies melds_to(Some(c), px, py,
        seq![c] + out) by {
        assert((seq![c] + out).drop_first() =~= out);
    }
}

/// Melding with an empty forest emits the other forest as it is.
proof fn lemma_meld_one_side<T: Priority>(xs: Seq<BinomialTree<T>>)
    ensures
        melds_to(None, Seq::<BinomialTree<T>>::empty(), xs, xs),
        melds_to(None, xs, Seq::<BinomialTree<T>>::empty(), xs),
    decreases xs.len(),
{
    if xs.len() > 0 {
        lemma_meld_one_side(xs.drop_first());
    }
}

/// The trees still to come from one side of a meld: the current one, if any,
/// then the rest.
spec fn pending<T>(cur: Option<BinomialTree<T>>, rest: Seq<BinomialTree<T>>) -> Seq<BinomialTree<T>> {
    match cur {
        Some(t) => seq![t] + rest,
        None => rest,
    }
}

spec fn opt_elems<T>(c: Option<BinomialTree<T>>) -> Multiset<T> {
    match c {
        Some(t) => tree_elems(t, order(t)),
        None => Multiset::empty(),
    }
}

/// An increasing forest without its first tree is still one, above that tree.
proof fn lemma_forest_tail<T: Priority>(t: BinomialTree<T>, s: Seq<BinomialTree<T>>)
    requires
        forest_ok(seq![t] + s),
    ensures
        forest_ok(s),
        tree_ok(t, order(t)),
        forall|i: int| 0 <= i < s.len() ==> order(t) < order(#[trigger] s[i]),
{
    let c = seq![t] + s;
    assert(c[0] == t);
    assert forall|i: int| 0 <= i < s.len() implies #[trigger] tree_ok(s[i], order(s[i])) by {
        assert(c[i + 1] == s[i]);
    }
    assert forall|i: int| 0 <= i < s.len() implies order(t) < order(#[trigger] s[i]) by {
        assert(c[i + 1] == s[i]);
        assert(order(c[0]) < order(c[i + 1]));
    }
    assert forall|i: int, j: int| 0 <= i < j < s.len() implies order(#[trigger] s[i]) < order(#[trigger] s[j]) by {
        assert(c[i + 1] == s[i]);
        assert(c[j + 1] == s[j]);
    }
}

/// Putting a tree of higher order in front keeps a decreasing forest.
proof fn lemma_desc_cons<T: Priority>(t: BinomialTree<T>, s: Seq<BinomialTree<T>>)
    requires
        forest_desc(s),
        tree_ok(t, order(t)),
        s.len() > 0 ==> order(s[0]) < order(t),
    ensures
        forest_desc(seq![t] + s),
{
    let c = seq![t] + s;
    assert forall|i: int| 0 <= i < c.len() implies #[trigger] tree_ok(c[i], order(c[i])) by {
        if i > 0 {
            assert(c[i] == s[i - 1]);
        }
    }
    assert forall|i: int, j: int| 0 <= i < j < c.len() implies order(#[trigger] c[i]) > order(#[trigger] c[j]) by {
        assert(c[j] == s[j - 1]);
        if i > 0 {
            assert(c[i] == s[i - 1]);
        } else if j > 1 {
            assert(order(s[0]) > order(s[j - 1]));
        }
    }
}

proof fn lemma_desc_reverse<T: Priority>(s: Seq<BinomialTree<T>>)
    requires
        forest_desc(s),
    ensures
        forest_ok(s.reverse()),
{
    let r = s.reverse();
    assert forall|i: int| 0 <= i < r.len() implies #[trigger] tree_ok(r[i], order(r[i])) by {
        assert(r[i] == s[s.len() - 1 - i]);
    }
    assert forall|i: int, j: int| 0 <= i < j < r.len() implies order(#[trigger] r[i]) < order(#[trigger] r[j]) by {
        assert(r[i] == s[s.len() - 1 - i]);
        assert(r[j] == s[s.len() - 1 - j]);
    }
}

/// What taking the next tree off one side leaves pending.
proof fn lemma_pending_next<T>(r: Option<BinomialTree<T>>, before: Seq<BinomialTree<T>>, after: Seq<BinomialTree<T>>)
    requires
        before.len() == 0 ==> r.is_none() && after == before,
        before.len() > 0 ==> r == Some(before[0]) && after == before.drop_first(),
    ensures
        pending(r, after) == before,
        r.is_none() ==> after.len() == 0,
        r matches Some(t) ==> t == before[0],
{
    if before.len() > 0 {
        assert(pending(r, after) =~= before);
    }
}

/// A root that ranks no higher than any root of a forest ranks no higher than
/// any of its elements.
proof fn lemma_forest_min<T: Priority>(s: Seq<BinomialTree<T>>, m: T)
    requires
        trees_ok(s),
        forall|i: int| 0 <= i < s.len() ==> m.rank() <= (#[trigger] s[i]).root.rank(),
    ensures
        forall|x: T| forest_elems(s).contains(x) ==> m.rank() <= x.rank(),
    decreases s.len(),
{
    if s.len() > 0 {
        let rest = s.drop_first();
        assert forall|i: int| 0 <= i < rest.len() implies #[trigger] tree_ok(rest[i], order(rest[i])) by {
            assert(rest[i] == s[i + 1]);
        }
        assert forall|i: int| 0 <= i < rest.len() implies m.rank() <= (#[trigger] rest[i]).root.rank() by {
            assert(rest[i] == s[i + 1]);
        }
        lemma_forest_min(rest, m);
        let t = s[0];
        assert(tree_ok(t, order(t)));
        assert(m.rank() <= s[0].root.rank());
        assert(tree_elems(t, order(t)) == run_elems(kids(t)).insert(t.root));
        assert(forest_elems(s) == tree_elems(t, order(t)).add(forest_elems(rest)));
        assert forall|x: T| forest_elems(s).contains(x) implies m.rank() <= x.rank() by {
            if tree_elems(t, order(t)).contains(x) {
                if x != t.root {
                    assert(run_elems(kids(t)).contains(x));
                }
            } else {
                assert(forest_elems(rest).contains(x));
            }
        }
    }
}

/// Every root of a forest is one of its elements.
proof fn lemma_root_in<T>(s: Seq<BinomialTree<T>>, i: int)
    requires
        0 <= i < s.len(),
    ensures
        forest_elems(s).contains(s[i].root),
    decreases s.len(),
{
    if i > 0 {
        lemma_root_in(s.drop_first(), i - 1);
    }
}

/// Taking the tree at position `b` out of an increasing forest leaves one.
proof fn lemma_forest_remove<T: Priority>(s: Seq<BinomialTree<T>>, b: int)
    requires
        forest_ok(s),
        0 <= b < s.len(),
    ensures
        forest_ok(s.subrange(0, b) + s.subrange(b + 1, s.len() as int)),
        forest_elems(s) == forest_elems(s.subrange(0, b) + s.subrange(b + 1, s.len() as int)).add(
            tree_elems(s[b], order(s[b]))),
{
    let pre = s.subrange(0, b);
    let post = s.subrange(b + 1, s.len() as int);
    let r = pre + post;
    assert forall|i: int| 0 <= i < r.len() implies #[trigger] tree_ok(r[i], order(r[i])) by {
        if i < b {
            assert(r[i] == s[i]);
        } else {
            assert(r[i] == s[i + 1]);
        }
    }
    assert forall|i: int, j: int| 0 <= i < j < r.len() implies order(#[trigger] r[i]) < order(#[trigger] r[j]) by {
        let si = if i < b { i } else { i + 1 };
        let sj = if j < b { j } else { j + 1 };
        assert(r[i] == s[si]);
        assert(r[j] == s[sj]);
    }
    assert(s =~= pre + (seq![s[b]] + post));
    lemma_forest_append(pre, seq![s[b]] + post);
    lemma_forest_cons(s[b], post);
    lemma_forest_append(pre, post);
    assert(forest_elems(s) =~= forest_elems(r).add(tree_elems(s[b], order(s[b]))));
}

/// A forest of binomial trees with distinct orders, lowest order first.
pub struct BinomialHeap<T: Priority> {
    trees: List<BinomialTree<T>>,
    len: usize,
}

impl<T: Priority> BinomialHeap<T> {
    #[verifier::type_invariant]
    spec fn forest_valid(self) -> bool {
        &&& forest_ok(self.trees@)
        &&& forest_elems(self.trees@).len() == self.len as int
    }

    /// An empty heap.
    pub fn new() -> (r: Self)
        ensures
            r.elems() == Multiset::<T>::empty(),
    {
        let r = BinomialHeap { trees: List::new(), len: 0 };
        proof {
            assert(forest_elems(r.trees@) =~= Multiset::<T>::empty());
        }
        r
    }

    /// Every tree of the forest is a heap-ordered binomial tree: a tree of
    /// order `k` has `k` children, of orders `k-1` down to `0`, each of them
    /// such a tree, and no element below a root ranks under it.
    pub closed spec fn trees_binomial(&self) -> bool {
        trees_ok(self.trees@)
    }

    /// The forest has no two trees of one order, and each tree is binomial.
    pub open spec fn forest_shaped(&self) -> bool {
        &&& forall|i: int, j: int| 0 <= i < j < self.orders_view().len() ==> self.orders_view()[i] < self.orders_view()[j]
        &&& self.trees_binomial()
    }

    /// The orders of the trees of the forest, lowest first.
    pub closed spec fn orders_view(&self) -> Seq<int> {
        self.trees@.map_values(|t: BinomialTree<T>| order(t) as int)
    }

    /// The orders of the trees of the forest, lowest first. They strictly
    /// increase, and a tree of order `k` holds `2^k` elements, so they are the
    /// positions of the 1-bits of the heap's size.
    pub fn orders(&self) -> (r: Vec<usize>)
        ensures
            r@.len() == self.orders_view().len(),
            forall|i: int| 0 <= i < r@.len() ==> r@[i] as int == #[trigger] self.orders_view()[i],
            forall|i: int, j: int| 0 <= i < j < r@.len() ==> r@[i] < r@[j],
            self.elems().len() == binary_weight(self.orders_view()),
    {
        proof {
            use_type_invariant(self);
            lemma_forest_size(self.trees@);
        }
        let n = self.trees.length();
        let mut r: Vec<usize> = Vec::new();
        let mut i: usize = 0;
        while i < n
            invariant
                n == self.trees@.len(),
                i <= n,
                r@.len() == i,
                forall|k: int| 0 <= k < i ==> r@[k] as int == #[trigger] self.orders_view()[k],
            decreases n - i,
        {
            let o = self.trees.get(i).order();
            r.push(o);
            i = i + 1;
        }
        proof {
            use_type_invariant(self);
            lemma_forest_size(self.trees@);
            assert forall|i: int, j: int| 0 <= i < j < r@.len() implies r@[i] < r@[j] by {
                assert(r@[i] as int == self.orders_view()[i]);
                assert(r@[j] as int == self.orders_view()[j]);
                assert(order(self.trees@[i]) < order(self.trees@[j]));
            }
        }
        r
    }

    /// The position of the tree with the least root.
    fn min_index(trees: &List<BinomialTree<T>>) -> (r: usize)
        requires
            trees@.len() > 0,
        ensures
            r < trees@.len(),
            forall|i: int| 0 <= i < trees@.len() ==> trees@[r as int].root.rank() <= (#[trigger] trees@[i]).root.rank(),
    {
        let n = trees.length();
        let mut best: usize = 0;
        let mut i: usize = 1;
        while i < n
            invariant
                n == trees@.len(),
                1 <= i <= n,
                best < i,
                forall|k: int| 0 <= k < i ==> trees@[best as int].root.rank() <= (#[trigger] trees@[k]).root.rank(),
            decreases n - i,
        {
            if !trees.get(best).root.at_most(&trees.get(i).root) {
                best = i;
            }
            i = i + 1;
        }
        best
    }

    /// Merges two forests into one, as binary addition merges digits: two
    /// trees of one order are joined into a carry of the next order.
    #[verifier::rlimit(100)]
    #[verifier::spinoff_prover]
    fn meld_tree_lists(x: List<BinomialTree<T>>, y: List<BinomialTree<T>>) -> (r: List<BinomialTree<T>>)
        requires
            forest_ok(x@),
            forest_ok(y@),
            forest_elems(x@).len() + forest_elems(y@).len() <= usize::MAX,
        ensures
            forest_ok(r@),
            forest_elems(r@) == forest_elems(x@).add(forest_elems(y@)),
            x@.len() == 0 ==> r@ == y@,
            x@.len() > 0 && y@.len() == 0 ==> r@ == x@,
            melds_to(None, x@, y@, r@),
    {
        if x.is_empty() {
            proof {
                lemma_meld_one_side(y@);
                assert(x@ =~= Seq::<BinomialTree<T>>::empty());
                assert(forest_elems(x@).add(forest_elems(y@)) =~= forest_elems(y@));
            }
            return y;
        }
        if y.is_empty() {
            proof {
                lemma_meld_one_side(x@);
                assert(y@ =~= Seq::<BinomialTree<T>>::empty());
                assert(forest_elems(x@).add(forest_elems(y@)) =~= forest_elems(x@));
            }
            return x;
        }
        let ghost total = forest_elems(x@).add(forest_elems(y@));
        let mut ret = List::<BinomialTree<T>>::new();
        let mut carry: Option<BinomialTree<T>> = None;
        let ghost x0 = x@;
        let ghost y0 = y@;
        let mut x = x.into_iter();
        let mut y = y.into_iter();
        let mut curx = x.next();
        let mut cury = y.next();
        proof {
            lemma_pending_next(curx, x0, x@);
            lemma_pending_next(cury, y0, y@);
            assert(forest_desc(ret@));
            assert(forest_elems(ret@).add(opt_elems(carry)).add(forest_elems(pending(curx, x@))).add(
                forest_elems(pending(cury, y@))) =~= total);
            assert(meld_prefix(x0, y0, carry, pending(curx, x@), pending(cury, y@), ret@)) by {
                assert forall|o: Seq<BinomialTree<T>>| #[trigger] melds_to(carry, pending(curx, x@), pending(cury, y@), o) implies melds_to(None, x0, y0, ret@.reverse() + o) by {
                    assert(ret@.reverse() + o =~= o);
                }
            }
        }
        while carry.is_some() || curx.is_some() || cury.is_some()
            invariant
                forest_ok(pending(curx, x@)),
                curx.is_none() ==> x@.len() == 0,
                forest_ok(pending(cury, y@)),
                cury.is_none() ==> y@.len() == 0,
                forest_desc(ret@),
                carry matches Some(c) ==> tree_ok(c, order(c)),
                carry matches Some(c) ==> (ret@.len() > 0 ==> order(ret@[0]) < order(c)),
                carry matches Some(c) ==> (curx matches Some(t) ==> order(c) <= order(t)),
                carry matches Some(c) ==> (cury matches Some(t) ==> order(c) <= order(t)),
                carry.is_none() ==> (ret@.len() > 0 ==> (curx matches Some(t) ==> order(ret@[0]) < order(t))),
                carry.is_none() ==> (ret@.len() > 0 ==> (cury matches Some(t) ==> order(ret@[0]) < order(t))),
                forest_elems(ret@).add(opt_elems(carry)).add(forest_elems(pending(curx, x@))).add(
                    forest_elems(pending(cury, y@))) == total,
                total.len() <= usize::MAX,
                meld_prefix(x0, y0, carry, pending(curx, x@), pending(cury, y@), ret@),
            decreases pending(curx, x@).len() + pending(cury, y@).len() + (if carry.is_some() { 1int } else { 0int }),
        {
            let ghost r0 = ret@;
            let ghost xs0 = x@;
            let ghost ys0 = y@;
            let ghost c0 = carry;
            let ghost px0 = pending(curx, x@);
            let ghost py0 = pending(cury, y@);
            proof {
                if curx is Some {
                    assert(px0.drop_first() =~= xs0);
                }
                if cury is Some {
                    assert(py0.drop_first() =~= ys0);
                }
                lemma_forest_len(r0);
                if curx is Some {
                    let t = curx->0;
                    lemma_forest_tail(t, xs0);
                    lemma_forest_cons(t, xs0);
                    lemma_tree_len(t, order(t));
                }
                if cury is Some {
                    let t = cury->0;
                    lemma_forest_tail(t, ys0);
                    lemma_forest_cons(t, ys0);
                    lemma_tree_len(t, order(t));
                }
                if carry is Some {
                    let c = carry->0;
                    lemma_tree_len(c, order(c));
                }
            }
            match carry {
                Some(c) => {
                    let co = c.order();
                    let xm = match &curx {
                        Some(t) => t.order() == co,
                        None => false,
                    };
                    let ym = match &cury {
                        Some(t) => t.order() == co,
                        None => false,
                    };
                    if xm && ym {
                        proof {
                            lemma_desc_cons(c, r0);
                            lemma_forest_cons(c, r0);
                        }
                        ret.push(c);
                        let a = curx.unwrap();
                        let b = cury.unwrap();
                        carry = Some(join(a, b));
                        curx = x.next();
                        cury = y.next();
                        proof {
                            lemma_pending_next(curx, xs0, x@);
                            lemma_pending_next(cury, ys0, y@);
                            assert(forest_elems(ret@).add(opt_elems(carry)).add(forest_elems(pending(curx, x@))).add(
                                forest_elems(pending(cury, y@))) =~= total);
                            lemma_carry_emit_link(c, px0, py0, carry->0);
                            lemma_advance(x0, y0, c0, px0, py0, r0, carry, pending(curx, x@), pending(cury, y@), seq![c]);
                        }
                    } else if xm {
                        let a = curx.unwrap();
                        carry = Some(join(c, a));
                        curx = x.next();
                        proof {
                            lemma_pending_next(curx, xs0, x@);
                            assert(forest_elems(ret@).add(opt_elems(carry)).add(forest_elems(pending(curx, x@))).add(
                                forest_elems(pending(cury, y@))) =~= total);
                            lemma_carry_link_x(c, px0, py0, carry->0);
                            lemma_advance(x0, y0, c0, px0, py0, r0, carry, pending(curx, x@), pending(cury, y@), Seq::<BinomialTree<T>>::empty());
                            assert(Seq::<BinomialTree<T>>::empty() + r0 =~= r0);
                        }
                    } else if ym {
                        let b = cury.unwrap();
                        carry = Some(join(c, b));
                        cury = y.next();
                        proof {
                            lemma_pending_next(cury, ys0, y@);
                            assert(forest_elems(ret@).add(opt_elems(carry)).add(forest_elems(pending(curx, x@))).add(
                                forest_elems(pending(cury, y@))) =~= total);
                            lemma_carry_link_y(c, px0, py0, carry->0);
                            lemma_advance(x0, y0, c0, px0, py0, r0, carry, pending(curx, x@), pending(cury, y@), Seq::<BinomialTree<T>>::empty());
                            assert(Seq::<BinomialTree<T>>::empty() + r0 =~= r0);
                        }
                    } else {
                        proof {
                            lemma_desc_cons(c, r0);
                            lemma_forest_cons(c, r0);
                        }
                        ret.push(c);
                        carry = None;
                        proof {
                            assert(forest_elems(ret@).add(opt_elems(carry)).add(forest_elems(pending(curx, x@))).add(
                                forest_elems(pending(cury, y@))) =~= total);
                            lemma_carry_emit(c, px0, py0);
                            lemma_advance(x0, y0, c0, px0, py0, r0, carry, pending(curx, x@), pending(cury, y@), seq![c]);
                        }
                    }
                },
                None => {
                    carry = None;
                    if curx.is_some() && cury.is_some() {
                        let a = curx.unwrap();
                        let b = cury.unwrap();
                        let oa = a.order();
                        let ob = b.order();
                        if oa < ob {
                            proof {
                                lemma_desc_cons(a, r0);
                                lemma_forest_cons(a, r0);
                            }
                            ret.push(a);
                            curx = x.next();
                            cury = Some(b);
                            proof {
                                lemma_pending_next(curx, xs0, x@);
                                assert(forest_elems(ret@).add(opt_elems(carry)).add(forest_elems(pending(curx, x@))).add(
                                    forest_elems(pending(cury, y@))) =~= total);
                                lemma_emit_x(px0, py0);
                                lemma_advance(x0, y0, c0, px0, py0, r0, carry, pending(curx, x@), pending(cury, y@), seq![a]);
                            }
                        } else if ob < oa {
                            proof {
                                lemma_desc_cons(b, r0);
                                lemma_forest_cons(b, r0);
                            }
                            ret.push(b);
                            cury = y.next();
                            curx = Some(a);
                            proof {
                                lemma_pending_next(cury, ys0, y@);
                                assert(forest_elems(ret@).add(opt_elems(carry)).add(forest_elems(pending(curx, x@))).add(
                                    forest_elems(pending(cury, y@))) =~= total);
                                lemma_emit_y(px0, py0);
                                lemma_advance(x0, y0, c0, px0, py0, r0, carry, pending(curx, x@), pending(cury, y@), seq![b]);
                            }
                        } else {
                            carry = Some(join(a, b));
                            curx = x.next();
                            cury = y.next();
                            proof {
                                lemma_pending_next(curx, xs0, x@);
                                lemma_pending_next(cury, ys0, y@);
                                assert(forest_elems(ret@).add(opt_elems(carry)).add(forest_elems(pending(curx, x@))).add(
                                    forest_elems(pending(cury, y@))) =~= total);
                                lemma_link_xy(px0, py0, carry->0);
                                lemma_advance(x0, y0, c0, px0, py0, r0, carry, pending(curx, x@), pending(cury, y@), Seq::<BinomialTree<T>>::empty());
                                assert(Seq::<BinomialTree<T>>::empty() + r0 =~= r0);
                            }
                        }
                    } else if curx.is_some() {
                        let a = curx.unwrap();
                        proof {
                            lemma_desc_cons(a, r0);
                            lemma_forest_cons(a, r0);
                        }
                        ret.push(a);
                        curx = x.next();
                        proof {
                            lemma_pending_next(curx, xs0, x@);
                            assert(forest_elems(ret@).add(opt_elems(carry)).add(forest_elems(pending(curx, x@))).add(
                                forest_elems(pending(cury, y@))) =~= total);
                            lemma_emit_x(px0, py0);
                            lemma_advance(x0, y0, c0, px0, py0, r0, carry, pending(curx, x@), pending(cury, y@), seq![a]);
                        }
                    } else {
                        let b = cury.unwrap();
                        proof {
                            lemma_desc_cons(b, r0);
                            lemma_forest_cons(b, r0);
                        }
                        ret.push(b);
                        cury = y.next();
                        proof {
                            lemma_pending_next(cury, ys0, y@);
                            assert(forest_elems(ret@).add(opt_elems(carry)).add(forest_elems(pending(curx, x@))).add(
                                forest_elems(pending(cury, y@))) =~= total);
                            lemma_emit_y(px0, py0);
                            lemma_advance(x0, y0, c0, px0, py0, r0, carry, pending(curx, x@), pending(cury, y@), seq![b]);
                        }
                    }
                },
            }
        }
        proof {
            assert(forest_elems(pending(curx, x@)) =~= Multiset::empty());
            assert(forest_elems(pending(cury, y@)) =~= Multiset::empty());
            assert(forest_elems(ret@) =~= total);
            lemma_desc_reverse(ret@);
            assert(pending(curx, x@) =~= Seq::<BinomialTree<T>>::empty());
            assert(pending(cury, y@) =~= Seq::<BinomialTree<T>>::empty());
            assert(melds_to(None, Seq::<BinomialTree<T>>::empty(), Seq::<BinomialTree<T>>::empty(),
                Seq::<BinomialTree<T>>::empty()));
            assert(ret@.reverse() + Seq::<BinomialTree<T>>::empty() =~= ret@.reverse());
            lemma_forest_reverse(ret@);
        }
        ret.reverse();
        ret
    }
}

proof fn lemma_shaped<T: Priority>(h: &BinomialHeap<T>)
    requires
        forest_ok(h.trees@),
    ensures
        h.forest_shaped(),
{
    assert forall|i: int, j: int| 0 <= i < j < h.orders_view().len() implies h.orders_view()[i] < h.orders_view()[j] by {
        assert(order(h.trees@[i]) < order(h.trees@[j]));
    }
}

impl<T: Priority> Heap<T> for BinomialHeap<T> {
    closed spec fn elems(&self) -> Multiset<T> {
        forest_elems(self.trees@)
    }

    fn add(&mut self, x: T)
        ensures
            final(self).forest_shaped(),
    {
        proof {
            use_type_invariant(&*self);
        }
        let mut cur = BinomialHeap::<T>::new();
        std::mem::swap(&mut cur, self);
        proof {
            use_type_invariant(&cur);
        }
        let BinomialHeap { trees, len } = cur;
        let mut single = List::<BinomialTree<T>>::new();
        single.push(BinomialTree::new(x));
        proof {
            lemma_forest_cons(single@[0], Seq::empty());
            assert(single@ =~= seq![single@[0]] + Seq::<BinomialTree<T>>::empty());
            assert(forest_elems(Seq::<BinomialTree<T>>::empty()) =~= Multiset::<T>::empty());
            assert(forest_elems(single@) =~= Multiset::singleton(x));
            assert(trees_ok(single@));
        }
        let merged = Self::meld_tree_lists(trees, single);
        proof {
            assert(forest_elems(merged@) =~= old(self).elems().insert(x));
        }
        *self = BinomialHeap { trees: merged, len: len + 1 };
        proof {
            lemma_shaped(&*self);
        }
    }

    fn peek_min(&self) -> (r: Option<&T>) {
        proof {
            use_type_invariant(self);
            lemma_forest_len(self.trees@);
        }
        if self.trees.is_empty() {
            proof {
                assert(forest_elems(self.trees@) =~= Multiset::<T>::empty());
            }
            None
        } else {
            let b = Self::min_index(&self.trees);
            let t = self.trees.get(b);
            proof {
                lemma_root_in(self.trees@, b as int);
                lemma_forest_min(self.trees@, t.root);
            }
            Some(&t.root)
        }
    }

    fn remove_min(&mut self) -> (r: Option<T>)
        ensures
            final(self).forest_shaped(),
    {
        proof {
            use_type_invariant(&*self);
            lemma_forest_len(self.trees@);
        }
        if self.trees.is_empty() {
            proof {
                assert(forest_elems(self.trees@) =~= Multiset::<T>::empty());
                lemma_shaped(&*self);
            }
            return None;
        }
        let b = Self::min_index(&self.trees);
        let mut cur = BinomialHeap::<T>::new();
        std::mem::swap(&mut cur, self);
        proof {
            use_type_invariant(&cur);
        }
        let BinomialHeap { trees, len } = cur;
        let ghost s = trees@;
        let mut trees = trees;
        let mut front = List::<BinomialTree<T>>::new();
        let mut k: usize = 0;
        while k < b
            invariant
                b < s.len(),
                k <= b,
                front@.len() == k,
                front@.reverse() + trees@ == s,
            decreases b - k,
        {
            let ghost tr0 = trees@;
            let ghost fr0 = front@;
            let t = trees.pop().unwrap();
            proof {
                assert(tr0.len() > 0) by {
                    assert((fr0.reverse() + tr0).len() == s.len());
                }
            }
            front.push(t);
            proof {
                assert(front@.reverse() =~= fr0.reverse().push(t));
                assert(front@.reverse() + trees@ =~= s);
            }
            k = k + 1;
        }
        proof {
            assert(trees@.len() > 0) by {
                assert((front@.reverse() + trees@).len() == s.len());
            }
        }
        let ghost tr1 = trees@;
        let t = trees.pop().unwrap();
        proof {
            assert(front@.reverse() =~= s.subrange(0, b as int)) by {
                assert forall|i: int| 0 <= i < b implies front@.reverse()[i] == s[i] by {
                    assert((front@.reverse() + tr1)[i] == s[i]);
                }
            }
            assert(tr1 =~= s.subrange(b as int, s.len() as int)) by {
                assert forall|i: int| 0 <= i < tr1.len() implies tr1[i] == s[b + i] by {
                    assert((front@.reverse() + tr1)[b + i] == s[b + i]);
                }
            }
            assert(t == s[b as int]);
            assert(trees@ =~= s.subrange(b + 1, s.len() as int));
        }
        let ghost rest = s.subrange(0, b as int) + s.subrange(b + 1, s.len() as int);
        proof {
            lemma_forest_len(s);
        }
        while !front.is_empty()
            invariant
                front@.reverse() + trees@ == rest,
                rest.len() < usize::MAX,
            decreases front@.len(),
        {
            let ghost tr0 = trees@;
            let ghost fr0 = front@;
            let u = front.pop().unwrap();
            proof {
                assert(fr0.reverse() =~= front@.reverse().push(u));
            }
            trees.push(u);
            proof {
                assert(front@.reverse() + trees@ =~= rest);
            }
        }
        proof {
            assert(trees@ =~= rest);
            lemma_forest_remove(s, b as int);
            assert(tree_ok(t, order(t)));
            lemma_run_forest(kids(t));
            lemma_forest_min(s, t.root);
            lemma_root_in(s, b as int);
        }
        let ghost cs = kids(t);
        let BinomialTree { root, children } = t;
        let lower = match children {
            Some(l) => {
                let mut l = l;
                l.reverse();
                l
            },
            None => List::new(),
        };
        proof {
            assert(lower@ =~= cs.reverse());
            assert(forest_elems(trees@).add(forest_elems(lower@)) =~= old(self).elems().remove(root));
        }
        let merged = Self::meld_tree_lists(trees, lower);
        *self = BinomialHeap { trees: merged, len: len - 1 };
        proof {
            lemma_shaped(&*self);
        }
        Some(root)
    }

    fn size(&self) -> (r: usize) {
        proof {
            use_type_invariant(self);
        }
        self.len
    }

    fn is_empty(&self) -> (r: bool) {
        proof {
            use_type_invariant(self);
            lemma_forest_len(self.trees@);
            if self.trees@.len() == 0 {
                assert(forest_elems(self.trees@) =~= Multiset::<T>::empty());
            }
        }
        self.trees.is_empty()
    }
}

/// Two to the power `k`.
pub open spec fn two_to(k: nat) -> nat
    decreases k,
{
    if k == 0 {
        1
    } else {
        2 * two_to((k - 1) as nat)
    }
}

/// The number whose 1-bits stand at the positions listed in `os`.
pub open spec fn binary_weight(os: Seq<int>) -> int
    decreases os.len(),
{
    if os.len() == 0 {
        0
    } else {
        two_to(os[0] as nat) + binary_weight(os.drop_first())
    }
}

proof fn lemma_tree_size<T: Priority>(t: BinomialTree<T>, k: nat)
    requires
        tree_ok(t, k),
    ensures
        tree_elems(t, k).len() == two_to(k),
    decreases k, 1nat,
{
    lemma_run_size(kids(t));
}

proof fn lemma_run_size<T: Priority>(cs: Seq<BinomialTree<T>>)
    requires
        run_ok(cs),
    ensures
        run_elems(cs).len() + 1 == two_to(cs.len()),
    decreases cs.len(), 0nat,
{
    if cs.len() > 0 {
        lemma_tree_size(cs[0], (cs.len() - 1) as nat);
        lemma_run_size(cs.drop_first());
    }
}

proof fn lemma_forest_size<T: Priority>(s: Seq<BinomialTree<T>>)
    requires
        trees_ok(s),
    ensures
        forest_elems(s).len() == binary_weight(s.map_values(|t: BinomialTree<T>| order(t) as int)),
    decreases s.len(),
{
    let os = s.map_values(|t: BinomialTree<T>| order(t) as int);
    if s.len() > 0 {
        let rest = s.drop_first();
        assert forall|i: int| 0 <= i < rest.len() implies #[trigger] tree_ok(rest[i], order(rest[i])) by {
            assert(rest[i] == s[i + 1]);
        }
        assert(tree_ok(s[0], order(s[0])));
        lemma_tree_size(s[0], order(s[0]));
        lemma_forest_size(rest);
        assert(os.drop_first() =~= rest.map_values(|t: BinomialTree<T>| order(t) as int));
    }
}

} // verus!
