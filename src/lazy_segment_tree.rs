use vstd::prelude::*;
use vstd::arithmetic::power2::{pow2, lemma_pow2_pos};
use crate::algebra::{
    Monoid, Action, fold, map_act, clone_value, lemma_fold_concat, lemma_fold_single,
    lemma_fold_push, lemma_fold_prepend,
    lemma_fold_identities, lemma_fold_map_act, lemma_map_act_compose, lemma_map_act_identity,
};
use crate::heap::{
    desc, node_at, capacity, lemma_leaf_node, lemma_node_children, lemma_desc_le,
    lemma_children_disjoint, lemma_right_child_desc, lemma_desc_split, lemma_times_pow2_zero,
};
use crate::segment_tree::{leaf_layout, layout_vec, layout_slice, build, inv_at};

verus! {

/// The values of the leaves under node `c` of height `k`, with every pending action
/// from `c` downwards applied, and none from above `c`.
pub open spec fn subtree_values<S: Monoid, F: Action<S>>(
    d: Seq<S>,
    z: Seq<F>,
    c: int,
    k: nat,
) -> Seq<S>
    decreases k,
{
    if k == 0 {
        seq![d[c]]
    } else {
        map_act(
            z[c],
            subtree_values(d, z, 2 * c, (k - 1) as nat) + subtree_values(d, z, 2 * c + 1, (k - 1) as nat),
        )
    }
}

/// Node `i` holds its pending action applied to the combination of its children.
pub open spec fn lazy_inv_at<S: Monoid, F: Action<S>>(d: Seq<S>, z: Seq<F>, i: int) -> bool {
    d[i] == F::action(z[i], S::combine(d[2 * i], d[2 * i + 1]))
}

/// The invariant holds at every internal node under `c`.
pub open spec fn lazy_inv_under<S: Monoid, F: Action<S>>(
    d: Seq<S>,
    z: Seq<F>,
    size: int,
    c: int,
) -> bool {
    forall|i: int| 1 <= i < size && desc(c, i) ==> #[trigger] lazy_inv_at(d, z, i)
}

/// The two pairs of arrays agree on every node under `c`.
pub open spec fn agree_under<S, F>(
    d1: Seq<S>,
    z1: Seq<F>,
    d2: Seq<S>,
    z2: Seq<F>,
    size: int,
    c: int,
) -> bool {
    forall|j: int| #[trigger]
        desc(c, j) ==> (j < 2 * size ==> d1[j] == d2[j] && (j < size ==> z1[j] == z2[j]))
}

/// `s` with the action `f` applied at the positions `a .. b`.
pub open spec fn apply_range<S: Monoid, F: Action<S>>(s: Seq<S>, a: int, b: int, f: F) -> Seq<S> {
    Seq::new(s.len(), |t: int| if a <= t < b { F::action(f, s[t]) } else { s[t] })
}

pub proof fn lemma_values_len<S: Monoid, F: Action<S>>(d: Seq<S>, z: Seq<F>, size: int, c: int, k: nat)
    requires
        node_at(size, c, k),
    ensures
        subtree_values(d, z, c, k).len() == pow2(k),
    decreases k,
{
    if k == 0 {
        lemma_times_pow2_zero(0);
    } else {
        lemma_node_children(size, c, k);
        lemma_values_len(d, z, size, 2 * c, (k - 1) as nat);
        lemma_values_len(d, z, size, 2 * c + 1, (k - 1) as nat);
    }
}

/// `subtree_values` under `c` reads only the nodes under `c`.
pub proof fn lemma_values_frame<S: Monoid, F: Action<S>>(
    d1: Seq<S>,
    z1: Seq<F>,
    d2: Seq<S>,
    z2: Seq<F>,
    size: int,
    c: int,
    k: nat,
)
    requires
        node_at(size, c, k),
        agree_under(d1, z1, d2, z2, size, c),
    ensures
        subtree_values(d1, z1, c, k) == subtree_values(d2, z2, c, k),
    decreases k,
{
    assert(desc(c, c));
    if k == 0 {
        lemma_leaf_node(size, c);
    } else {
        lemma_node_children(size, c, k);
        assert forall|j: int| #[trigger] desc(2 * c, j) && j < 2 * size implies d1[j] == d2[j]
            && (j < size ==> z1[j] == z2[j]) by {
            lemma_children_disjoint(c, j);
        }
        assert forall|j: int| #[trigger] desc(2 * c + 1, j) && j < 2 * size implies d1[j] == d2[j]
            && (j < size ==> z1[j] == z2[j]) by {
            lemma_right_child_desc(c, j);
        }
        lemma_values_frame(d1, z1, d2, z2, size, 2 * c, (k - 1) as nat);
        lemma_values_frame(d1, z1, d2, z2, size, 2 * c + 1, (k - 1) as nat);
    }
}

/// Under the invariant a node holds the fold of the values under it.
pub proof fn lemma_node_value<S: Monoid, F: Action<S>>(
    d: Seq<S>,
    z: Seq<F>,
    size: int,
    c: int,
    k: nat,
)
    requires
        node_at(size, c, k),
        lazy_inv_under(d, z, size, c),
    ensures
        d[c] == fold(subtree_values(d, z, c, k)),
    decreases k,
{
    if k == 0 {
        lemma_fold_single(d[c]);
    } else {
        let k1 = (k - 1) as nat;
        lemma_node_children(size, c, k);
        assert(desc(c, c));
        assert(lazy_inv_at(d, z, c));
        assert forall|i: int| 1 <= i < size && desc(2 * c, i) implies #[trigger] lazy_inv_at(
            d,
            z,
            i,
        ) by {
            lemma_children_disjoint(c, i);
        }
        assert forall|i: int| 1 <= i < size && desc(2 * c + 1, i) implies #[trigger] lazy_inv_at(
            d,
            z,
            i,
        ) by {
            lemma_right_child_desc(c, i);
        }
        lemma_node_value(d, z, size, 2 * c, k1);
        lemma_node_value(d, z, size, 2 * c + 1, k1);
        let a = subtree_values(d, z, 2 * c, k1);
        let b = subtree_values(d, z, 2 * c + 1, k1);
        lemma_values_len(d, z, size, 2 * c, k1);
        lemma_fold_concat(a, b);
        lemma_fold_map_act(z[c], a + b);
    }
}

/// With no pending action anywhere, the values under a node are the leaves under it.
pub proof fn lemma_values_plain<S: Monoid, F: Action<S>>(
    d: Seq<S>,
    z: Seq<F>,
    size: int,
    c: int,
    k: nat,
)
    requires
        node_at(size, c, k),
        d.len() == 2 * size,
        z.len() == size,
        forall|j: int| 1 <= j < size ==> #[trigger] z[j] == F::identity(),
    ensures
        subtree_values(d, z, c, k) == d.subrange(c * pow2(k), (c + 1) * pow2(k)),
    decreases k,
{
    if k == 0 {
        lemma_times_pow2_zero(c);
        lemma_times_pow2_zero(c + 1);
        lemma_leaf_node(size, c);
        assert(d.subrange(c * pow2(k), (c + 1) * pow2(k)) =~= seq![d[c]]);
    } else {
        let k1 = (k - 1) as nat;
        lemma_node_children(size, c, k);
        lemma_values_plain(d, z, size, 2 * c, k1);
        lemma_values_plain(d, z, size, 2 * c + 1, k1);
        lemma_map_act_identity::<S, F>(subtree_values(d, z, 2 * c, k1) + subtree_values(d, z, 2 * c + 1, k1));
        let a = c * pow2(k);
        let m = (2 * c + 1) * pow2(k1);
        let b = (c + 1) * pow2(k);
        assert(d.subrange(a, b) =~= d.subrange(a, m) + d.subrange(m, b));
    }
}

/// What a push of node `c` does to the arrays.
pub open spec fn pushed<S: Monoid, F: Action<S>>(
    d0: Seq<S>,
    z0: Seq<F>,
    d1: Seq<S>,
    z1: Seq<F>,
    size: int,
    c: int,
) -> bool {
    let f = z0[c];
    &&& d1 == d0.update(2 * c, F::action(f, d0[2 * c])).update(
        2 * c + 1,
        F::action(f, d0[2 * c + 1]),
    )
    &&& z1 == if 2 * c < size {
        z0.update(c, F::identity()).update(2 * c, F::combine(f, z0[2 * c])).update(
            2 * c + 1,
            F::combine(f, z0[2 * c + 1]),
        )
    } else {
        z0.update(c, F::identity())
    }
}

/// After a push of `c`, a child's values carry the action that `c` held.
proof fn lemma_push_child<S: Monoid, F: Action<S>>(
    d0: Seq<S>,
    z0: Seq<F>,
    d1: Seq<S>,
    z1: Seq<F>,
    size: int,
    c: int,
    e: int,
    k: nat,
)
    requires
        pushed(d0, z0, d1, z1, size, c),
        e == 2 * c || e == 2 * c + 1,
        node_at(size, 2 * c, k),
        node_at(size, 2 * c + 1, k),
        1 <= c < size,
        z0.len() == size,
        d0.len() == 2 * size,
    ensures
        subtree_values(d1, z1, e, k) == map_act(z0[c], subtree_values(d0, z0, e, k)),
{
    let f = z0[c];
    if k == 0 {
        assert(subtree_values(d1, z1, e, k) =~= map_act(f, subtree_values(d0, z0, e, k)));
    } else {
        let k1 = (k - 1) as nat;
        lemma_node_children(size, 2 * c, k);
        lemma_node_children(size, 2 * c + 1, k);
        assert forall|j: int| #[trigger] desc(2 * e, j) && j < 2 * size implies d1[j] == d0[j]
            && (j < size ==> z1[j] == z0[j]) by {
            lemma_desc_le(2 * e, j);
        }
        assert forall|j: int| #[trigger] desc(2 * e + 1, j) && j < 2 * size implies d1[j] == d0[j]
            && (j < size ==> z1[j] == z0[j]) by {
            lemma_desc_le(2 * e + 1, j);
        }
        lemma_values_frame(d1, z1, d0, z0, size, 2 * e, k1);
        lemma_values_frame(d1, z1, d0, z0, size, 2 * e + 1, k1);
        assert(z1 == z0.update(c, F::identity()).update(2 * c, F::combine(f, z0[2 * c])).update(
            2 * c + 1,
            F::combine(f, z0[2 * c + 1]),
        ));
        assert(z1[e] == F::combine(f, z0[e]));
        lemma_map_act_compose(f, z0[e], subtree_values(d0, z0, 2 * e, k1) + subtree_values(d0, z0, 2 * e + 1, k1));
    }
}

/// A push of `c` keeps the values under `c` and the invariant.
proof fn lemma_push<S: Monoid, F: Action<S>>(
    d0: Seq<S>,
    z0: Seq<F>,
    d1: Seq<S>,
    z1: Seq<F>,
    size: int,
    c: int,
    k: nat,
)
    requires
        pushed(d0, z0, d1, z1, size, c),
        node_at(size, c, k),
        k >= 1,
        z0.len() == size,
        d0.len() == 2 * size,
        lazy_inv_under(d0, z0, size, c),
    ensures
        subtree_values(d1, z1, c, k) == subtree_values(d0, z0, c, k),
        subtree_values(d1, z1, 2 * c, (k - 1) as nat) == map_act(z0[c], subtree_values(d0, z0, 2 * c, (k - 1) as nat)),
        subtree_values(d1, z1, 2 * c + 1, (k - 1) as nat) == map_act(
            z0[c],
            subtree_values(d0, z0, 2 * c + 1, (k - 1) as nat),
        ),
        lazy_inv_under(d1, z1, size, c),
        d1[c] == d0[c],
        z1[c] == F::identity(),
        z1.len() == size,
        forall|j: int|
            0 <= j < size && j != c && j != 2 * c && j != 2 * c + 1 ==> #[trigger] z1[j] == z0[j],
{
    let f = z0[c];
    let k1 = (k - 1) as nat;
    lemma_node_children(size, c, k);
    lemma_push_child(d0, z0, d1, z1, size, c, 2 * c, k1);
    lemma_push_child(d0, z0, d1, z1, size, c, 2 * c + 1, k1);
    if k1 >= 1 {
        lemma_node_children(size, 2 * c, k1);
        lemma_node_children(size, 2 * c + 1, k1);
        assert(z1 == z0.update(c, F::identity()).update(2 * c, F::combine(f, z0[2 * c])).update(
            2 * c + 1,
            F::combine(f, z0[2 * c + 1]),
        ));
    } else {
        lemma_leaf_node(size, 2 * c);
        assert(z1 == z0.update(c, F::identity()));
    }
    assert(z1.len() == size);
    assert(z1[c] == F::identity());
    assert(forall|i: int|
        0 <= i < size && i != c && i != 2 * c && i != 2 * c + 1 ==> z1[i] == z0[i]);
    assert(2 * c < size ==> z1[2 * c] == F::combine(f, z0[2 * c]) && z1[2 * c + 1] == F::combine(
        f,
        z0[2 * c + 1],
    ));
    let a = subtree_values(d0, z0, 2 * c, k1);
    let b = subtree_values(d0, z0, 2 * c + 1, k1);
    lemma_map_act_identity::<S, F>(map_act(f, a) + map_act(f, b));
    assert(map_act(f, a) + map_act(f, b) =~= map_act(f, a + b));
    assert(desc(c, c));
    assert(lazy_inv_at(d0, z0, c));
    assert forall|i: int| 1 <= i < size && desc(c, i) implies #[trigger] lazy_inv_at(d1, z1, i) by {
        lemma_desc_le(c, i);
        if i == c {
            F::lemma_identity_action(S::combine(d1[2 * c], d1[2 * c + 1]));
            F::lemma_action_distributes(f, d0[2 * c], d0[2 * c + 1]);
        } else if i == 2 * c || i == 2 * c + 1 {
            assert(desc(c, i));
            assert(lazy_inv_at(d0, z0, i));
            F::lemma_compose_action(f, z0[i], S::combine(d0[2 * i], d0[2 * i + 1]));
        } else {
            assert(lazy_inv_at(d0, z0, i));
        }
    }
}

/// The arrays agree on every node that is not under `c`.
pub open spec fn unchanged_outside<S, F>(
    d0: Seq<S>,
    z0: Seq<F>,
    d1: Seq<S>,
    z1: Seq<F>,
    size: int,
    c: int,
) -> bool {
    &&& forall|j: int| 0 <= j < 2 * size && !desc(c, j) ==> #[trigger] d1[j] == d0[j]
    &&& forall|j: int| 0 <= j < size && !desc(c, j) ==> #[trigger] z1[j] == z0[j]
}

proof fn lemma_desc_children(a: int, i: int)
    requires
        desc(a, i),
        i >= 1,
    ensures
        desc(a, 2 * i),
        desc(a, 2 * i + 1),
{
    assert((2 * i) / 2 == i);
    assert((2 * i + 1) / 2 == i);
}

/// The invariant under `e` survives any change outside `e`.
proof fn lemma_inv_frame<S: Monoid, F: Action<S>>(
    d0: Seq<S>,
    z0: Seq<F>,
    d1: Seq<S>,
    z1: Seq<F>,
    size: int,
    e: int,
)
    requires
        lazy_inv_under(d0, z0, size, e),
        agree_under(d0, z0, d1, z1, size, e),
    ensures
        lazy_inv_under(d1, z1, size, e),
{
    assert forall|i: int| 1 <= i < size && desc(e, i) implies #[trigger] lazy_inv_at(d1, z1, i) by {
        lemma_desc_children(e, i);
        assert(lazy_inv_at(d0, z0, i));
    }
}

/// A change confined under one child leaves the other child's subtree alone.
proof fn lemma_sibling_agree<S, F>(
    d0: Seq<S>,
    z0: Seq<F>,
    d1: Seq<S>,
    z1: Seq<F>,
    size: int,
    c: int,
)
    requires
        1 <= c < size,
    ensures
        unchanged_outside(d0, z0, d1, z1, size, 2 * c) ==> agree_under(d0, z0, d1, z1, size, 2 * c + 1),
        unchanged_outside(d0, z0, d1, z1, size, 2 * c + 1) ==> agree_under(d0, z0, d1, z1, size, 2 * c),
        unchanged_outside(d0, z0, d1, z1, size, 2 * c) ==> unchanged_outside(d0, z0, d1, z1, size, c),
        unchanged_outside(d0, z0, d1, z1, size, 2 * c + 1) ==> unchanged_outside(d0, z0, d1, z1, size, c),
        unchanged_outside(d0, z0, d1, z1, size, 2 * c) ==> d1[c] == d0[c] && z1[c] == z0[c],
        unchanged_outside(d0, z0, d1, z1, size, 2 * c + 1) ==> d1[c] == d0[c] && z1[c] == z0[c],
{
    assert forall|j: int| #[trigger] desc(2 * c + 1, j) implies !desc(2 * c, j) && desc(c, j) && j != c by {
        lemma_right_child_desc(c, j);
    }
    assert forall|j: int| #[trigger] desc(2 * c, j) implies !desc(2 * c + 1, j) && desc(c, j) && j != c by {
        lemma_children_disjoint(c, j);
    }
    lemma_desc_le(2 * c, 2 * c);
    if !desc(2 * c, c) {
    } else {
        lemma_desc_le(2 * c, c);
    }
    if desc(2 * c + 1, c) {
        lemma_desc_le(2 * c + 1, c);
    }
}

/// Pushing twice in a row does what pushing once does.
pub proof fn lemma_push_idempotent<S: Monoid, F: Action<S>>(
    d0: Seq<S>,
    z0: Seq<F>,
    d1: Seq<S>,
    z1: Seq<F>,
    d2: Seq<S>,
    z2: Seq<F>,
    size: int,
    c: int,
    k: nat,
)
    requires
        node_at(size, c, k),
        k >= 1,
        z0.len() == size,
        d0.len() == 2 * size,
        pushed(d0, z0, d1, z1, size, c),
        pushed(d1, z1, d2, z2, size, c),
    ensures
        d2 == d1,
        z2 == z1,
{
    let f = z0[c];
    lemma_node_children(size, c, k);
    if k >= 2 {
        lemma_node_children(size, 2 * c, (k - 1) as nat);
        lemma_node_children(size, 2 * c + 1, (k - 1) as nat);
        assert(z1 == z0.update(c, F::identity()).update(2 * c, F::combine(f, z0[2 * c])).update(
            2 * c + 1,
            F::combine(f, z0[2 * c + 1]),
        ));
    } else {
        lemma_leaf_node(size, 2 * c);
        assert(z1 == z0.update(c, F::identity()));
    }
    assert(z1[c] == F::identity());
    F::lemma_identity_action(d1[2 * c]);
    F::lemma_identity_action(d1[2 * c + 1]);
    assert(d2 =~= d1);
    if 2 * c < size {
        F::lemma_left_identity(z1[2 * c]);
        F::lemma_left_identity(z1[2 * c + 1]);
    }
    assert(z2 =~= z1);
}

/// Writing `x` at `i` and then reading `i` gives back `x`, whatever the elements were
/// before, also right after a range action that covered `i`.
pub proof fn lemma_set_then_get<S: Monoid, F: Action<S>>(v: Seq<S>, i: int, x: S, l: int, r: int, f: F)
    requires
        0 <= i < v.len(),
    ensures
        v.update(i, x)[i] == x,
        apply_range(v, l, r, f).update(i, x)[i] == x,
{
}

/// A change to one element, as the point operations make it.
pub enum PointEdit<S, F> {
    Assign(S),
    Combine(S),
    Act(F),
}

pub open spec fn edit_value<S: Monoid, F: Action<S>>(e: PointEdit<S, F>, x: S) -> S {
    match e {
        PointEdit::Assign(y) => y,
        PointEdit::Combine(y) => S::combine(x, y),
        PointEdit::Act(f) => F::action(f, x),
    }
}

fn apply_edit<S: Monoid, F: Action<S>>(e: &PointEdit<S, F>, x: &S) -> (r: S)
    ensures
        r == edit_value(*e, *x),
{
    match e {
        PointEdit::Assign(y) => clone_value(y),
        PointEdit::Combine(y) => x.op(y),
        PointEdit::Act(f) => f.act(x),
    }
}

/// A segment tree with lazy propagation: range actions and range folds.
///
/// `data` uses the layout of [`crate::segment_tree::SegmentTree`]. Each internal node
/// `i` also carries a pending action `lazy[i]`: `data[i]` already reflects it, the
/// children of `i` do not yet.
pub struct LazySegmentTree<S: Monoid, F: Action<S>> {
    data: Vec<S>,
    lazy: Vec<F>,
    n: usize,
    log: usize,
}

impl<S: Monoid, F: Action<S>> View for LazySegmentTree<S, F> {
    type V = Seq<S>;

    /// The elements, in order, with every pending action applied.
    closed spec fn view(&self) -> Seq<S> {
        self.values().subrange(0, self.n as int)
    }
}

impl<S: Monoid, F: Action<S>> LazySegmentTree<S, F> {
    /// The leaf values, padding included, with every pending action applied.
    spec fn values(&self) -> Seq<S> {
        subtree_values(self.data@, self.lazy@, 1, self.log as nat)
    }

    spec fn shape(&self) -> bool {
        &&& self.lazy@.len() == pow2(self.log as nat)
        &&& self.lazy@.len() >= 1
        &&& self.n <= self.lazy@.len()
        &&& 2 * self.lazy@.len() <= usize::MAX
        &&& self.data@.len() == 2 * self.lazy@.len()
    }

    /// The tree's internal invariant.
    pub closed spec fn wf(&self) -> bool {
        &&& self.shape()
        &&& lazy_inv_under(self.data@, self.lazy@, self.lazy@.len() as int, 1)
        &&& forall|t: int|
            self.n <= t < self.lazy@.len() ==> #[trigger] self.values()[t] == S::identity()
    }

    proof fn lemma_root(&self)
        requires
            self.shape(),
        ensures
            node_at(self.lazy@.len() as int, 1, self.log as nat),
            self.values().len() == self.lazy@.len(),
    {
        lemma_pow2_pos(self.log as nat);
        lemma_values_len(self.data@, self.lazy@, self.lazy@.len() as int, 1, self.log as nat);
    }

    fn push(&mut self, c: usize, Ghost(k): Ghost<nat>)
        requires
            old(self).shape(),
            node_at(old(self).lazy@.len() as int, c as int, k),
            k >= 1,
        ensures
            final(self).shape(),
            final(self).n == old(self).n,
            final(self).log == old(self).log,
            pushed(
                old(self).data@,
                old(self).lazy@,
                final(self).data@,
                final(self).lazy@,
                old(self).lazy@.len() as int,
                c as int,
            ),
    {
        let ghost size = self.lazy@.len() as int;
        proof {
            lemma_node_children(size, c as int, k);
            if k >= 2 {
                lemma_node_children(size, 2 * c, (k - 1) as nat);
                lemma_node_children(size, 2 * c + 1, (k - 1) as nat);
            } else {
                lemma_leaf_node(size, 2 * c);
            }
        }
        let f = clone_value(&self.lazy[c]);
        self.lazy.set(c, F::id());
        let x = f.act(&self.data[2 * c]);
        self.data.set(2 * c, x);
        let y = f.act(&self.data[2 * c + 1]);
        self.data.set(2 * c + 1, y);
        if 2 * c < self.lazy.len() {
            let g = f.op(&self.lazy[2 * c]);
            self.lazy.set(2 * c, g);
            let h = f.op(&self.lazy[2 * c + 1]);
            self.lazy.set(2 * c + 1, h);
        }
    }

    fn update(&mut self, c: usize)
        requires
            old(self).shape(),
            1 <= c < old(self).lazy@.len(),
        ensures
            final(self).shape(),
            final(self).n == old(self).n,
            final(self).log == old(self).log,
            final(self).lazy@ == old(self).lazy@,
            final(self).data@ == old(self).data@.update(
                c as int,
                S::combine(old(self).data@[2 * c], old(self).data@[2 * c + 1]),
            ),
    {
        let v = self.data[2 * c].op(&self.data[2 * c + 1]);
        self.data.set(c, v);
    }

    /// Applies `f` to the positions `l .. r` among the leaves under node `c`, whose
    /// positions are `lo .. hi`.
    fn apply_rec(
        &mut self,
        c: usize,
        Ghost(k): Ghost<nat>,
        lo: usize,
        hi: usize,
        l: usize,
        r: usize,
        f: &F,
    )
        requires
            old(self).shape(),
            node_at(old(self).lazy@.len() as int, c as int, k),
            hi - lo == pow2(k),
            lo < r,
            l < hi,
            l < r,
            lazy_inv_under(old(self).data@, old(self).lazy@, old(self).lazy@.len() as int, c as int),
        ensures
            final(self).shape(),
            final(self).n == old(self).n,
            final(self).log == old(self).log,
            final(self).lazy@.len() == old(self).lazy@.len(),
            lazy_inv_under(final(self).data@, final(self).lazy@, old(self).lazy@.len() as int, c as int),
            unchanged_outside(
                old(self).data@,
                old(self).lazy@,
                final(self).data@,
                final(self).lazy@,
                old(self).lazy@.len() as int,
                c as int,
            ),
            subtree_values(final(self).data@, final(self).lazy@, c as int, k) == apply_range(
                subtree_values(old(self).data@, old(self).lazy@, c as int, k),
                l - lo,
                r - lo,
                *f,
            ),
        decreases k,
    {
        let ghost size = self.lazy@.len() as int;
        let ghost d0 = self.data@;
        let ghost z0 = self.lazy@;
        let ghost t0 = subtree_values(d0, z0, c as int, k);
        proof {
            lemma_values_len(d0, z0, size, c as int, k);
            if k == 0 {
                lemma_times_pow2_zero(0);
                lemma_leaf_node(size, c as int);
            } else {
                lemma_node_children(size, c as int, k);
            }
        }
        if l <= lo && hi <= r {
            let v = f.act(&self.data[c]);
            self.data.set(c, v);
            if c < self.lazy.len() {
                let g = f.op(&self.lazy[c]);
                self.lazy.set(c, g);
            }
            proof {
                let d1 = self.data@;
                let z1 = self.lazy@;
                assert forall|j: int| 0 <= j < 2 * size && !desc(c as int, j) implies #[trigger] d1[j]
                    == d0[j] by {
                    assert(desc(c as int, c as int));
                }
                assert forall|j: int| 0 <= j < size && !desc(c as int, j) implies #[trigger] z1[j]
                    == z0[j] by {
                    assert(desc(c as int, c as int));
                }
                if k == 0 {
                    lemma_leaf_node(size, c as int);
                    assert(subtree_values(d1, z1, c as int, k) =~= apply_range(t0, l - lo, r - lo, *f));
                    assert forall|i: int| 1 <= i < size && desc(c as int, i) implies #[trigger] lazy_inv_at(
                        d1,
                        z1,
                        i,
                    ) by {
                        lemma_desc_le(c as int, i);
                    }
                } else {
                    let k1 = (k - 1) as nat;
                    lemma_node_children(size, c as int, k);
                    assert forall|j: int| #[trigger] desc(2 * c, j) && j < 2 * size implies d1[j]
                        == d0[j] && (j < size ==> z1[j] == z0[j]) by {
                        lemma_children_disjoint(c as int, j);
                    }
                    assert forall|j: int| #[trigger] desc(2 * c + 1, j) && j < 2 * size implies d1[j]
                        == d0[j] && (j < size ==> z1[j] == z0[j]) by {
                        lemma_right_child_desc(c as int, j);
                    }
                    lemma_values_frame(d1, z1, d0, z0, size, 2 * c, k1);
                    lemma_values_frame(d1, z1, d0, z0, size, 2 * c + 1, k1);
                    let inner = subtree_values(d0, z0, 2 * c, k1) + subtree_values(d0, z0, 2 * c + 1, k1);
                    lemma_map_act_compose(*f, z0[c as int], inner);
                    assert(subtree_values(d1, z1, c as int, k) =~= apply_range(t0, l - lo, r - lo, *f));
                    assert forall|i: int| 1 <= i < size && desc(c as int, i) implies #[trigger] lazy_inv_at(
                        d1,
                        z1,
                        i,
                    ) by {
                        lemma_desc_le(c as int, i);
                        assert(lazy_inv_at(d0, z0, i));
                        if i == c {
                            F::lemma_compose_action(
                                *f,
                                z0[i],
                                S::combine(d0[2 * i], d0[2 * i + 1]),
                            );
                        }
                    }
                }
            }
            return;
        }
        let ghost k1 = (k - 1) as nat;
        proof {
            lemma_node_children(size, c as int, k);
            lemma_values_len(d0, z0, size, 2 * c, k1);
        }
        self.push(c, Ghost(k));
        let ghost d1 = self.data@;
        let ghost z1 = self.lazy@;
        proof {
            lemma_push(d0, z0, d1, z1, size, c as int, k);
        }
        let mid = lo + (hi - lo) / 2;
        proof {
            assert forall|i: int| 1 <= i < size && desc(2 * c, i) implies #[trigger] lazy_inv_at(
                d1,
                z1,
                i,
            ) by {
                lemma_children_disjoint(c as int, i);
            }
            assert forall|i: int| 1 <= i < size && desc(2 * c + 1, i) implies #[trigger] lazy_inv_at(
                d1,
                z1,
                i,
            ) by {
                lemma_right_child_desc(c as int, i);
            }
        }
        if l < mid {
            self.apply_rec(2 * c, Ghost(k1), lo, mid, l, r, f);
        }
        let ghost d2 = self.data@;
        let ghost z2 = self.lazy@;
        proof {
            lemma_sibling_agree(d1, z1, d2, z2, size, c as int);
            if !(l < mid) {
                assert(subtree_values(d2, z2, 2 * c, k1) =~= apply_range(subtree_values(d1, z1, 2 * c, k1), l - lo, r - lo, *f));
            }
            lemma_values_frame(d2, z2, d1, z1, size, 2 * c + 1, k1);
            lemma_inv_frame(d1, z1, d2, z2, size, 2 * c + 1);
        }
        if mid < r {
            self.apply_rec(2 * c + 1, Ghost(k1), mid, hi, l, r, f);
        }
        let ghost d3 = self.data@;
        let ghost z3 = self.lazy@;
        proof {
            lemma_sibling_agree(d2, z2, d3, z3, size, c as int);
            if !(mid < r) {
                assert(subtree_values(d3, z3, 2 * c + 1, k1) =~= apply_range(subtree_values(d2, z2, 2 * c + 1, k1), l - mid, r - mid, *f));
            }
            lemma_values_frame(d3, z3, d2, z2, size, 2 * c, k1);
            lemma_inv_frame(d2, z2, d3, z3, size, 2 * c);
        }
        self.update(c);
        proof {
            let d4 = self.data@;
            let z4 = self.lazy@;
            let ci = c as int;
            assert forall|j: int| #[trigger] desc(2 * ci, j) && j < 2 * size implies d4[j]
                == d3[j] && (j < size ==> z4[j] == z3[j]) by {
                lemma_children_disjoint(ci, j);
            }
            assert forall|j: int| #[trigger] desc(2 * ci + 1, j) && j < 2 * size implies d4[j]
                == d3[j] && (j < size ==> z4[j] == z3[j]) by {
                lemma_right_child_desc(ci, j);
            }
            lemma_values_frame(d4, z4, d3, z3, size, 2 * ci, k1);
            lemma_values_frame(d4, z4, d3, z3, size, 2 * ci + 1, k1);
            lemma_inv_frame(d3, z3, d4, z4, size, 2 * ci);
            lemma_inv_frame(d3, z3, d4, z4, size, 2 * ci + 1);
            assert(z4[ci] == F::identity());
            let a = subtree_values(d4, z4, 2 * ci, k1);
            let b = subtree_values(d4, z4, 2 * ci + 1, k1);
            lemma_map_act_identity::<S, F>(a + b);
            assert(subtree_values(d4, z4, ci, k) =~= apply_range(t0, l - lo, r - lo, *f));
            assert forall|i: int| 1 <= i < size && desc(ci, i) implies #[trigger] lazy_inv_at(d4, z4, i) by {
                if i == ci {
                    F::lemma_identity_action(S::combine(d4[2 * ci], d4[2 * ci + 1]));
                } else {
                    lemma_desc_split(ci, i);
                }
            }
            assert forall|j: int| 0 <= j < 2 * size && !desc(ci, j) implies #[trigger] d4[j] == d0[j] by {
                assert(desc(ci, ci));
                if desc(2 * ci, j) {
                    lemma_children_disjoint(ci, j);
                }
                if desc(2 * ci + 1, j) {
                    lemma_right_child_desc(ci, j);
                }
                if j == 2 * ci || j == 2 * ci + 1 {
                    lemma_desc_children(ci, ci);
                }
            }
            assert forall|j: int| 0 <= j < size && !desc(ci, j) implies #[trigger] z4[j] == z0[j] by {
                assert(desc(ci, ci));
                if desc(2 * ci, j) {
                    lemma_children_disjoint(ci, j);
                }
                if desc(2 * ci + 1, j) {
                    lemma_right_child_desc(ci, j);
                }
                if j == 2 * ci || j == 2 * ci + 1 {
                    lemma_desc_children(ci, ci);
                }
            }
        }
    }

    /// Changes the leaf at position `p` among the leaves under node `c`, whose
    /// positions are `lo .. hi`.
    fn point_rec(
        &mut self,
        c: usize,
        Ghost(k): Ghost<nat>,
        lo: usize,
        hi: usize,
        p: usize,
        e: &PointEdit<S, F>,
    )
        requires
            old(self).shape(),
            node_at(old(self).lazy@.len() as int, c as int, k),
            hi - lo == pow2(k),
            lo <= p < hi,
            lazy_inv_under(old(self).data@, old(self).lazy@, old(self).lazy@.len() as int, c as int),
        ensures
            final(self).shape(),
            final(self).n == old(self).n,
            final(self).log == old(self).log,
            final(self).lazy@.len() == old(self).lazy@.len(),
            lazy_inv_under(final(self).data@, final(self).lazy@, old(self).lazy@.len() as int, c as int),
            unchanged_outside(
                old(self).data@,
                old(self).lazy@,
                final(self).data@,
                final(self).lazy@,
                old(self).lazy@.len() as int,
                c as int,
            ),
            subtree_values(final(self).data@, final(self).lazy@, c as int, k) == subtree_values(
                old(self).data@,
                old(self).lazy@,
                c as int,
                k,
            ).update(
                p - lo,
                edit_value(*e, subtree_values(old(self).data@, old(self).lazy@, c as int, k)[p - lo]),
            ),
        decreases k,
    {
        let ghost size = self.lazy@.len() as int;
        let ghost d0 = self.data@;
        let ghost z0 = self.lazy@;
        let ghost t0 = subtree_values(d0, z0, c as int, k);
        proof {
            lemma_values_len(d0, z0, size, c as int, k);
            if k == 0 {
                lemma_times_pow2_zero(0);
                lemma_leaf_node(size, c as int);
            } else {
                lemma_node_children(size, c as int, k);
            }
        }
        if hi - lo == 1 {
            proof {
                if k > 0 {
                    lemma_node_children(size, c as int, k);
                    lemma_pow2_pos((k - 1) as nat);
                }
                lemma_leaf_node(size, c as int);
            }
            let v = apply_edit(e, &self.data[c]);
            self.data.set(c, v);
            proof {
                let d1 = self.data@;
                let z1 = self.lazy@;
                assert forall|j: int| 0 <= j < 2 * size && !desc(c as int, j) implies #[trigger] d1[j]
                    == d0[j] by {
                    assert(desc(c as int, c as int));
                }
                assert(subtree_values(d1, z1, c as int, k) =~= t0.update(p - lo, edit_value(*e, t0[p - lo])));
                assert forall|i: int| 1 <= i < size && desc(c as int, i) implies #[trigger] lazy_inv_at(
                    d1,
                    z1,
                    i,
                ) by {
                    lemma_desc_le(c as int, i);
                }
            }
            return;
        }
        let ghost k1 = (k - 1) as nat;
        proof {
            lemma_node_children(size, c as int, k);
            lemma_values_len(d0, z0, size, 2 * c, k1);
        }
        self.push(c, Ghost(k));
        let ghost d1 = self.data@;
        let ghost z1 = self.lazy@;
        proof {
            lemma_push(d0, z0, d1, z1, size, c as int, k);
            assert forall|i: int| 1 <= i < size && desc(2 * c, i) implies #[trigger] lazy_inv_at(
                d1,
                z1,
                i,
            ) by {
                lemma_children_disjoint(c as int, i);
            }
            assert forall|i: int| 1 <= i < size && desc(2 * c + 1, i) implies #[trigger] lazy_inv_at(
                d1,
                z1,
                i,
            ) by {
                lemma_right_child_desc(c as int, i);
            }
        }
        let mid = lo + (hi - lo) / 2;
        if p < mid {
            self.point_rec(2 * c, Ghost(k1), lo, mid, p, e);
        } else {
            self.point_rec(2 * c + 1, Ghost(k1), mid, hi, p, e);
        }
        let ghost d3 = self.data@;
        let ghost z3 = self.lazy@;
        proof {
            lemma_sibling_agree(d1, z1, d3, z3, size, c as int);
            if p < mid {
                lemma_values_frame(d3, z3, d1, z1, size, 2 * c + 1, k1);
                lemma_inv_frame(d1, z1, d3, z3, size, 2 * c + 1);
            } else {
                lemma_values_frame(d3, z3, d1, z1, size, 2 * c, k1);
                lemma_inv_frame(d1, z1, d3, z3, size, 2 * c);
            }
        }
        self.update(c);
        proof {
            let d4 = self.data@;
            let z4 = self.lazy@;
            let ci = c as int;
            assert forall|j: int| #[trigger] desc(2 * ci, j) && j < 2 * size implies d4[j]
                == d3[j] && (j < size ==> z4[j] == z3[j]) by {
                lemma_children_disjoint(ci, j);
            }
            assert forall|j: int| #[trigger] desc(2 * ci + 1, j) && j < 2 * size implies d4[j]
                == d3[j] && (j < size ==> z4[j] == z3[j]) by {
                lemma_right_child_desc(ci, j);
            }
            lemma_values_frame(d4, z4, d3, z3, size, 2 * ci, k1);
            lemma_values_frame(d4, z4, d3, z3, size, 2 * ci + 1, k1);
            lemma_inv_frame(d3, z3, d4, z4, size, 2 * ci);
            lemma_inv_frame(d3, z3, d4, z4, size, 2 * ci + 1);
            let a = subtree_values(d4, z4, 2 * ci, k1);
            let b = subtree_values(d4, z4, 2 * ci + 1, k1);
            lemma_map_act_identity::<S, F>(a + b);
            assert(subtree_values(d4, z4, ci, k) =~= t0.update(p - lo, edit_value(*e, t0[p - lo])));
            assert forall|i: int| 1 <= i < size && desc(ci, i) implies #[trigger] lazy_inv_at(d4, z4, i) by {
                if i == ci {
                    F::lemma_identity_action(S::combine(d4[2 * ci], d4[2 * ci + 1]));
                } else {
                    lemma_desc_split(ci, i);
                }
            }
            assert forall|j: int| 0 <= j < 2 * size && !desc(ci, j) implies #[trigger] d4[j] == d0[j] by {
                assert(desc(ci, ci));
                if desc(2 * ci, j) {
                    lemma_children_disjoint(ci, j);
                }
                if desc(2 * ci + 1, j) {
                    lemma_right_child_desc(ci, j);
                }
                if j == 2 * ci || j == 2 * ci + 1 {
                    lemma_desc_children(ci, ci);
                }
            }
            assert forall|j: int| 0 <= j < size && !desc(ci, j) implies #[trigger] z4[j] == z0[j] by {
                assert(desc(ci, ci));
                if desc(2 * ci, j) {
                    lemma_children_disjoint(ci, j);
                }
                if desc(2 * ci + 1, j) {
                    lemma_right_child_desc(ci, j);
                }
                if j == 2 * ci || j == 2 * ci + 1 {
                    lemma_desc_children(ci, ci);
                }
            }
        }
    }

    /// Folds the positions `l .. r` among the leaves under node `c`, whose positions
    /// are `lo .. hi`, leaving out the pending actions above `c`.
    fn fold_rec(&self, c: usize, Ghost(k): Ghost<nat>, lo: usize, hi: usize, l: usize, r: usize) -> (res: S)
        requires
            self.shape(),
            node_at(self.lazy@.len() as int, c as int, k),
            hi - lo == pow2(k),
            lo < r,
            l < hi,
            l < r,
            lazy_inv_under(self.data@, self.lazy@, self.lazy@.len() as int, c as int),
        ensures
            res == fold(
                subtree_values(self.data@, self.lazy@, c as int, k).subrange(
                    if l < lo { 0 } else { l - lo },
                    if r < hi { r - lo } else { hi - lo },
                ),
            ),
        decreases k,
    {
        let ghost size = self.lazy@.len() as int;
        let ghost d = self.data@;
        let ghost z = self.lazy@;
        let ghost t = subtree_values(d, z, c as int, k);
        proof {
            lemma_values_len(d, z, size, c as int, k);
            if k == 0 {
                lemma_times_pow2_zero(0);
                lemma_leaf_node(size, c as int);
            } else {
                lemma_node_children(size, c as int, k);
            }
        }
        if l <= lo && hi <= r {
            proof {
                lemma_node_value(d, z, size, c as int, k);
                assert(t.subrange(0, hi - lo) =~= t);
            }
            return clone_value(&self.data[c]);
        }
        let ghost k1 = (k - 1) as nat;
        proof {
            lemma_node_children(size, c as int, k);
            lemma_values_len(d, z, size, 2 * c, k1);
            lemma_values_len(d, z, size, 2 * c + 1, k1);
            assert forall|i: int| 1 <= i < size && desc(2 * c, i) implies #[trigger] lazy_inv_at(
                d,
                z,
                i,
            ) by {
                lemma_children_disjoint(c as int, i);
            }
            assert forall|i: int| 1 <= i < size && desc(2 * c + 1, i) implies #[trigger] lazy_inv_at(
                d,
                z,
                i,
            ) by {
                lemma_right_child_desc(c as int, i);
            }
        }
        let mid = lo + (hi - lo) / 2;
        let ghost a = subtree_values(d, z, 2 * c, k1);
        let ghost b = subtree_values(d, z, 2 * c + 1, k1);
        let ghost s0: int = if l < lo { 0 } else { l - lo };
        let ghost s1: int = if r < hi { r - lo } else { hi - lo };
        let ghost ab = (a + b).subrange(s0, s1);
        proof {
            assert(t.subrange(s0, s1) =~= map_act(z[c as int], ab));
            lemma_fold_map_act(z[c as int], ab);
        }
        let x = if r <= mid {
            let x = self.fold_rec(2 * c, Ghost(k1), lo, mid, l, r);
            proof {
                assert(ab =~= a.subrange(s0, s1));
            }
            x
        } else if mid <= l {
            let x = self.fold_rec(2 * c + 1, Ghost(k1), mid, hi, l, r);
            proof {
                assert(ab =~= b.subrange(s0 - (mid - lo), s1 - (mid - lo)));
            }
            x
        } else {
            let x = self.fold_rec(2 * c, Ghost(k1), lo, mid, l, r);
            let y = self.fold_rec(2 * c + 1, Ghost(k1), mid, hi, l, r);
            proof {
                assert(ab =~= a.subrange(s0, mid - lo) + b.subrange(0, s1 - (mid - lo)));
                lemma_fold_concat(a.subrange(s0, mid - lo), b.subrange(0, s1 - (mid - lo)));
            }
            x.op(&y)
        };
        self.lazy[c].act(&x)
    }

    /// Reads the leaf at position `p` among the leaves under node `c`, whose positions
    /// are `lo .. hi`, pushing the pending actions on the way down.
    fn get_rec(&mut self, c: usize, Ghost(k): Ghost<nat>, lo: usize, hi: usize, p: usize) -> (res: S)
        requires
            old(self).shape(),
            node_at(old(self).lazy@.len() as int, c as int, k),
            hi - lo == pow2(k),
            lo <= p < hi,
            lazy_inv_under(old(self).data@, old(self).lazy@, old(self).lazy@.len() as int, c as int),
        ensures
            final(self).shape(),
            final(self).n == old(self).n,
            final(self).log == old(self).log,
            final(self).lazy@.len() == old(self).lazy@.len(),
            lazy_inv_under(final(self).data@, final(self).lazy@, old(self).lazy@.len() as int, c as int),
            unchanged_outside(
                old(self).data@,
                old(self).lazy@,
                final(self).data@,
                final(self).lazy@,
                old(self).lazy@.len() as int,
                c as int,
            ),
            subtree_values(final(self).data@, final(self).lazy@, c as int, k) == subtree_values(
                old(self).data@,
                old(self).lazy@,
                c as int,
                k,
            ),
            res == subtree_values(old(self).data@, old(self).lazy@, c as int, k)[p - lo],
            final(self).data@[c as int] == old(self).data@[c as int],
        decreases k,
    {
        let ghost size = self.lazy@.len() as int;
        let ghost d0 = self.data@;
        let ghost z0 = self.lazy@;
        let ghost t0 = subtree_values(d0, z0, c as int, k);
        proof {
            lemma_values_len(d0, z0, size, c as int, k);
            if k == 0 {
                lemma_times_pow2_zero(0);
                lemma_leaf_node(size, c as int);
            } else {
                lemma_node_children(size, c as int, k);
                lemma_pow2_pos((k - 1) as nat);
            }
        }
        if hi - lo == 1 {
            proof {
                lemma_leaf_node(size, c as int);
            }
            return clone_value(&self.data[c]);
        }
        let ghost k1 = (k - 1) as nat;
        proof {
            lemma_values_len(d0, z0, size, 2 * c, k1);
        }
        self.push(c, Ghost(k));
        let ghost d1 = self.data@;
        let ghost z1 = self.lazy@;
        proof {
            lemma_push(d0, z0, d1, z1, size, c as int, k);
            assert forall|i: int| 1 <= i < size && desc(2 * c, i) implies #[trigger] lazy_inv_at(
                d1,
                z1,
                i,
            ) by {
                lemma_children_disjoint(c as int, i);
            }
            assert forall|i: int| 1 <= i < size && desc(2 * c + 1, i) implies #[trigger] lazy_inv_at(
                d1,
                z1,
                i,
            ) by {
                lemma_right_child_desc(c as int, i);
            }
        }
        let mid = lo + (hi - lo) / 2;
        let res = if p < mid {
            self.get_rec(2 * c, Ghost(k1), lo, mid, p)
        } else {
            self.get_rec(2 * c + 1, Ghost(k1), mid, hi, p)
        };
        proof {
            let d3 = self.data@;
            let z3 = self.lazy@;
            let ci = c as int;
            lemma_sibling_agree(d1, z1, d3, z3, size, ci);
            if p < mid {
                lemma_values_frame(d3, z3, d1, z1, size, 2 * ci + 1, k1);
                lemma_inv_frame(d1, z1, d3, z3, size, 2 * ci + 1);
            } else {
                lemma_values_frame(d3, z3, d1, z1, size, 2 * ci, k1);
                lemma_inv_frame(d1, z1, d3, z3, size, 2 * ci);
            }
            let a = subtree_values(d1, z1, 2 * ci, k1);
            let b = subtree_values(d1, z1, 2 * ci + 1, k1);
            lemma_map_act_identity::<S, F>(a + b);
            assert forall|i: int| 1 <= i < size && desc(ci, i) implies #[trigger] lazy_inv_at(d3, z3, i) by {
                if i == ci {
                    assert(desc(ci, ci));
                    assert(lazy_inv_at(d1, z1, ci));
                } else {
                    lemma_desc_split(ci, i);
                }
            }
            assert forall|j: int| 0 <= j < 2 * size && !desc(ci, j) implies #[trigger] d3[j] == d0[j] by {
                assert(desc(ci, ci));
                if desc(2 * ci, j) {
                    lemma_children_disjoint(ci, j);
                }
                if desc(2 * ci + 1, j) {
                    lemma_right_child_desc(ci, j);
                }
                if j == 2 * ci || j == 2 * ci + 1 {
                    lemma_desc_children(ci, ci);
                }
            }
            assert forall|j: int| 0 <= j < size && !desc(ci, j) implies #[trigger] z3[j] == z0[j] by {
                assert(desc(ci, ci));
                if desc(2 * ci, j) {
                    lemma_children_disjoint(ci, j);
                }
                if desc(2 * ci + 1, j) {
                    lemma_right_child_desc(ci, j);
                }
                if j == 2 * ci || j == 2 * ci + 1 {
                    lemma_desc_children(ci, ci);
                }
            }
        }
        res
    }

    /// The root's height and the padding past the last element survive a change of
    /// the values that keeps the padding.
    proof fn lemma_rewrap(old_t: &Self, new_t: &Self, vals: Seq<S>)
        requires
            old_t.wf(),
            new_t.shape(),
            new_t.n == old_t.n,
            new_t.log == old_t.log,
            new_t.lazy@.len() == old_t.lazy@.len(),
            lazy_inv_under(new_t.data@, new_t.lazy@, new_t.lazy@.len() as int, 1),
            new_t.values() == vals,
            vals.len() == old_t.values().len(),
            forall|t: int| old_t.n <= t < vals.len() ==> #[trigger] vals[t] == old_t.values()[t],
        ensures
            new_t.wf(),
    {
        old_t.lemma_root();
    }

    /// Creates a tree of `n` elements, all the identity.
    pub fn new(n: usize) -> (r: Self)
        requires
            n <= usize::MAX / 4,
        ensures
            r.wf(),
            r@ == Seq::new(n as nat, |i: int| S::identity()),
    {
        let (size, log) = capacity(n);
        let mut data: Vec<S> = Vec::new();
        let mut t: usize = 0;
        while t < 2 * size
            invariant
                t <= 2 * size,
                2 * size <= usize::MAX,
                data@.len() == t,
                forall|j: int| 0 <= j < t ==> #[trigger] data@[j] == S::identity(),
            decreases 2 * size - t,
        {
            data.push(S::id());
            t = t + 1;
        }
        let lazy = Self::identity_actions(size);
        let r = LazySegmentTree { data, lazy, n, log };
        proof {
            let d = r.data@;
            let z = r.lazy@;
            r.lemma_root();
            lemma_values_plain(d, z, size as int, 1, log as nat);
            lemma_times_pow2_zero(0);
            assert forall|i: int| 1 <= i < size && desc(1, i) implies #[trigger] lazy_inv_at(d, z, i) by {
                S::lemma_left_identity(S::identity());
                F::lemma_identity_action(S::identity());
            }
            assert(r.values() =~= d.subrange(size as int, 2 * size));
            assert(r@ =~= Seq::new(n as nat, |i: int| S::identity()));
        }
        r
    }

    fn identity_actions(size: usize) -> (lazy: Vec<F>)
        ensures
            lazy@.len() == size,
            forall|j: int| 0 <= j < size ==> #[trigger] lazy@[j] == F::identity(),
    {
        let mut lazy: Vec<F> = Vec::new();
        let mut t: usize = 0;
        while t < size
            invariant
                t <= size,
                lazy@.len() == t,
                forall|j: int| 0 <= j < t ==> #[trigger] lazy@[j] == F::identity(),
            decreases size - t,
        {
            lazy.push(F::id());
            t = t + 1;
        }
        lazy
    }

    fn assemble(data: Vec<S>, n: usize, size: usize, log: usize, d0: Ghost<Seq<S>>, v: Ghost<Seq<S>>) -> (r: Self)
        requires
            size == pow2(log as nat),
            size >= 1,
            n <= size,
            2 * size <= usize::MAX,
            n == v@.len(),
            data@.len() == 2 * size,
            forall|j: int| 1 <= j < size ==> #[trigger] inv_at(data@, j),
            data@.subrange(size as int, 2 * size) == d0@.subrange(size as int, 2 * size),
            d0@.len() == 2 * size,
            forall|j: int| 0 <= j < 2 * size ==> #[trigger] d0@[j] == leaf_layout(v@, size as int, j),
        ensures
            r.wf(),
            r@ == v@,
    {
        let lazy = Self::identity_actions(size);
        let r = LazySegmentTree { data, lazy, n, log };
        proof {
            let d = r.data@;
            let z = r.lazy@;
            r.lemma_root();
            lemma_values_plain(d, z, size as int, 1, log as nat);
            lemma_times_pow2_zero(0);
            assert forall|i: int| 1 <= i < size && desc(1, i) implies #[trigger] lazy_inv_at(d, z, i) by {
                assert(inv_at(d, i));
                F::lemma_identity_action(S::combine(d[2 * i], d[2 * i + 1]));
            }
            assert(r.values() =~= d.subrange(size as int, 2 * size));
            assert forall|t: int| n <= t < size implies #[trigger] r.values()[t] == S::identity() by {
                assert(d0@[size + t] == d0@.subrange(size as int, 2 * size)[t]);
            }
            assert forall|t: int| 0 <= t < n implies #[trigger] r@[t] == v@[t] by {
                assert(d0@[size + t] == d0@.subrange(size as int, 2 * size)[t]);
            }
            assert(r@ =~= v@);
        }
        r
    }

    /// Creates a tree holding the given elements.
    pub fn from_vec(v: Vec<S>) -> (r: Self)
        requires
            v@.len() <= usize::MAX / 4,
        ensures
            r.wf(),
            r@ == v@,
    {
        let n = v.len();
        let (size, log) = capacity(n);
        let mut data = layout_vec(&v, size);
        let ghost d0 = data@;
        build(&mut data, size);
        Self::assemble(data, n, size, log, Ghost(d0), Ghost(v@))
    }

    /// Creates a tree holding the given elements.
    pub fn from_slice(v: &[S]) -> (r: Self)
        requires
            v@.len() <= usize::MAX / 4,
        ensures
            r.wf(),
            r@ == v@,
    {
        let n = v.len();
        let (size, log) = capacity(n);
        let mut data = layout_slice(v, size);
        let ghost d0 = data@;
        build(&mut data, size);
        Self::assemble(data, n, size, log, Ghost(d0), Ghost(v@))
    }

    fn edit_point(&mut self, i: usize, e: PointEdit<S, F>)
        requires
            old(self).wf(),
            i < old(self)@.len(),
        ensures
            final(self).wf(),
            final(self)@ == old(self)@.update(i as int, edit_value(e, old(self)@[i as int])),
    {
        let ghost vals = self.values();
        proof {
            self.lemma_root();
        }
        let size = self.lazy.len();
        self.point_rec(1, Ghost(self.log as nat), 0, size, i, &e);
        proof {
            Self::lemma_rewrap(&*old(self), &*self, vals.update(i as int, edit_value(e, vals[i as int])));
            assert(self@ =~= old(self)@.update(i as int, edit_value(e, old(self)@[i as int])));
        }
    }

    /// Sets the element at `i` to `x`.
    pub fn set(&mut self, i: usize, x: S)
        requires
            old(self).wf(),
            i < old(self)@.len(),
        ensures
            final(self).wf(),
            final(self)@ == old(self)@.update(i as int, x),
    {
        self.edit_point(i, PointEdit::Assign(x));
    }

    /// Replaces the element at `i` with `op(a[i], x)`.
    pub fn operate(&mut self, i: usize, x: S)
        requires
            old(self).wf(),
            i < old(self)@.len(),
        ensures
            final(self).wf(),
            final(self)@ == old(self)@.update(i as int, S::combine(old(self)@[i as int], x)),
    {
        self.edit_point(i, PointEdit::Combine(x));
    }

    /// Replaces the element at `i` with `f.act(a[i])`.
    pub fn apply(&mut self, i: usize, f: F)
        requires
            old(self).wf(),
            i < old(self)@.len(),
        ensures
            final(self).wf(),
            final(self)@ == old(self)@.update(i as int, F::action(f, old(self)@[i as int])),
    {
        self.edit_point(i, PointEdit::Act(f));
    }

    /// Applies `f` to every element at `l .. r`.
    pub fn range_apply(&mut self, l: usize, r: usize, f: F)
        requires
            old(self).wf(),
            l <= r <= old(self)@.len(),
        ensures
            final(self).wf(),
            final(self)@ == apply_range(old(self)@, l as int, r as int, f),
    {
        if l == r {
            proof {
                assert(self@ =~= apply_range(self@, l as int, r as int, f));
            }
            return;
        }
        let ghost vals = self.values();
        proof {
            self.lemma_root();
        }
        let size = self.lazy.len();
        self.apply_rec(1, Ghost(self.log as nat), 0, size, l, r, &f);
        proof {
            Self::lemma_rewrap(&*old(self), &*self, apply_range(vals, l as int, r as int, f));
            assert(self@ =~= apply_range(old(self)@, l as int, r as int, f));
        }
    }

    /// Returns the element at `i`, pushing the pending actions above it.
    pub fn get(&mut self, i: usize) -> (r: S)
        requires
            old(self).wf(),
            i < old(self)@.len(),
        ensures
            final(self).wf(),
            final(self)@ == old(self)@,
            r == old(self)@[i as int],
    {
        let ghost vals = self.values();
        proof {
            self.lemma_root();
        }
        let size = self.lazy.len();
        let r = self.get_rec(1, Ghost(self.log as nat), 0, size, i);
        proof {
            Self::lemma_rewrap(&*old(self), &*self, vals);
        }
        r
    }

    /// Returns `op(a[l], ..., a[r - 1])`, or the identity when `l == r`.
    pub fn range_fold(&self, l: usize, r: usize) -> (res: S)
        requires
            self.wf(),
            l <= r <= self@.len(),
        ensures
            res == fold(self@.subrange(l as int, r as int)),
    {
        if l == r {
            proof {
                assert(self@.subrange(l as int, r as int) =~= Seq::<S>::empty());
            }
            return S::id();
        }
        proof {
            self.lemma_root();
            assert(self@.subrange(l as int, r as int) =~= self.values().subrange(l as int, r as int));
        }
        self.fold_rec(1, Ghost(self.log as nat), 0, self.lazy.len(), l, r)
    }

    /// Returns `op(a[0], ..., a[n - 1])`.
    pub fn all_fold(&self) -> (r: S)
        requires
            self.wf(),
        ensures
            r == fold(self@),
    {
        proof {
            self.lemma_root();
            let size = self.lazy@.len() as int;
            lemma_node_value(self.data@, self.lazy@, size, 1, self.log as nat);
            let pad = self.values().subrange(self.n as int, size);
            assert(self.values() =~= self@ + pad);
            lemma_fold_concat(self@, pad);
            lemma_fold_identities(pad);
            S::lemma_right_identity(fold(self@));
        }
        clone_value(&self.data[1])
    }

    /// Returns the smallest `r` in `l ..= n` such that `pred(op(a[l], ..., a[r - 1]))`
    /// holds, trying `r = l, l + 1, ...` in turn; returns `n` when no smaller `r`
    /// qualifies. With a monotone `pred` this is the boundary where it turns true.
    pub fn max_right<P: Fn(&S) -> bool>(&self, l: usize, pred: P) -> (r: usize)
        requires
            self.wf(),
            l <= self@.len(),
            forall|s: &S| #[trigger] pred.requires((s,)),
        ensures
            l <= r <= self@.len(),
            forall|t: int|
                l <= t < r ==> #[trigger] pred.ensures((&fold(self@.subrange(l as int, t)),), false),
            r < self@.len() ==> pred.ensures((&fold(self@.subrange(l as int, r as int)),), true),
    {
        let n = self.len();
        let mut acc = S::id();
        let mut r = l;
        proof {
            assert(self@.subrange(l as int, l as int) =~= Seq::<S>::empty());
        }
        while r < n
            invariant
                self.wf(),
                n == self@.len(),
                l <= r <= n,
                acc == fold(self@.subrange(l as int, r as int)),
                forall|s: &S| #[trigger] pred.requires((s,)),
                forall|t: int|
                    l <= t < r ==> #[trigger] pred.ensures((&fold(self@.subrange(l as int, t)),), false),
            decreases n - r,
        {
            if pred(&acc) {
                return r;
            }
            let x = self.element(r);
            proof {
                assert(self@.subrange(l as int, r + 1) =~= self@.subrange(l as int, r as int).push(x));
                lemma_fold_push(self@.subrange(l as int, r as int), x);
            }
            acc = acc.op(&x);
            r = r + 1;
        }
        r
    }

    /// Returns the largest `l` in `0 ..= r` such that `pred(op(a[l], ..., a[r - 1]))`
    /// holds, trying `l = r, r - 1, ...` in turn; returns `0` when no larger `l`
    /// qualifies. With a monotone `pred` this is the boundary where it turns true.
    pub fn min_left<P: Fn(&S) -> bool>(&self, r: usize, pred: P) -> (l: usize)
        requires
            self.wf(),
            r <= self@.len(),
            forall|s: &S| #[trigger] pred.requires((s,)),
        ensures
            l <= r,
            forall|t: int|
                l < t <= r ==> #[trigger] pred.ensures((&fold(self@.subrange(t, r as int)),), false),
            l > 0 ==> pred.ensures((&fold(self@.subrange(l as int, r as int)),), true),
    {
        let mut acc = S::id();
        let mut l = r;
        proof {
            assert(self@.subrange(r as int, r as int) =~= Seq::<S>::empty());
        }
        while l > 0
            invariant
                self.wf(),
                l <= r <= self@.len(),
                acc == fold(self@.subrange(l as int, r as int)),
                forall|s: &S| #[trigger] pred.requires((s,)),
                forall|t: int|
                    l < t <= r ==> #[trigger] pred.ensures((&fold(self@.subrange(t, r as int)),), false),
            decreases l,
        {
            if pred(&acc) {
                return l;
            }
            let x = self.element(l - 1);
            proof {
                assert(self@.subrange(l - 1, r as int) =~= seq![x] + self@.subrange(l as int, r as int));
                lemma_fold_prepend(x, self@.subrange(l as int, r as int));
            }
            acc = x.op(&acc);
            l = l - 1;
        }
        0
    }

    fn element(&self, i: usize) -> (r: S)
        requires
            self.wf(),
            i < self@.len(),
        ensures
            r == self@[i as int],
    {
        proof {
            self.lemma_root();
        }
        let r = self.range_fold(i, i + 1);
        proof {
            assert(self@.subrange(i as int, i + 1) =~= seq![self@[i as int]]);
            lemma_fold_single(self@[i as int]);
        }
        r
    }

    /// Returns the number of elements.
    pub fn len(&self) -> (r: usize)
        requires
            self.wf(),
        ensures
            r == self@.len(),
    {
        proof {
            self.lemma_root();
        }
        self.n
    }

    /// Returns `true` when the tree holds no element.
    pub fn is_empty(&self) -> (r: bool)
        requires
            self.wf(),
        ensures
            r == (self@.len() == 0),
    {
        proof {
            self.lemma_root();
        }
        self.n == 0
    }
}

} // verus!
