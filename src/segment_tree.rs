use vstd::prelude::*;
use vstd::arithmetic::power2::{pow2, lemma_pow2_unfold, lemma_pow2_pos};
use crate::algebra::{
    Monoid, fold, clone_value, lemma_fold_concat, lemma_fold_single, lemma_fold_push,
    lemma_fold_prepend, lemma_fold_identities,
};
use crate::heap::{desc, node_at, capacity, lemma_leaf_node, lemma_node_children};

verus! {

/// Node `i` holds the combination of its two children.
pub open spec fn inv_at<S: Monoid>(d: Seq<S>, i: int) -> bool {
    d[i] == S::combine(d[2 * i], d[2 * i + 1])
}

/// Every internal node but the strict ancestors of `p` holds the combination of its children.
pub open spec fn inv_except<S: Monoid>(d: Seq<S>, size: int, p: int) -> bool {
    forall|j: int| 1 <= j < size && !(desc(j, p) && j != p) ==> #[trigger] inv_at(d, j)
}

/// The array before the internal nodes are computed: the elements at `size ..`,
/// the identity everywhere else.
pub open spec fn leaf_layout<S: Monoid>(v: Seq<S>, size: int, j: int) -> S {
    if size <= j < size + v.len() {
        v[j - size]
    } else {
        S::identity()
    }
}

/// Lays the elements out as the leaves of an array of `2 * size` nodes.
pub(crate) fn layout_vec<S: Monoid>(v: &Vec<S>, size: usize) -> (data: Vec<S>)
    requires
        v@.len() <= size,
        2 * size <= usize::MAX,
    ensures
        data@.len() == 2 * size,
        forall|j: int| 0 <= j < 2 * size ==> #[trigger] data@[j] == leaf_layout(v@, size as int, j),
{
    let n = v.len();
    let mut data: Vec<S> = Vec::new();
    let mut t: usize = 0;
    while t < 2 * size
        invariant
            t <= 2 * size,
            2 * size <= usize::MAX,
            n <= size,
            n == v@.len(),
            data@.len() == t,
            forall|j: int| 0 <= j < t ==> #[trigger] data@[j] == leaf_layout(v@, size as int, j),
        decreases 2 * size - t,
    {
        if size <= t && t < size + n {
            data.push(clone_value(&v[t - size]));
        } else {
            data.push(S::id());
        }
        t = t + 1;
    }
    data
}

/// Lays the elements out as the leaves of an array of `2 * size` nodes.
pub(crate) fn layout_slice<S: Monoid>(v: &[S], size: usize) -> (data: Vec<S>)
    requires
        v@.len() <= size,
        2 * size <= usize::MAX,
    ensures
        data@.len() == 2 * size,
        forall|j: int| 0 <= j < 2 * size ==> #[trigger] data@[j] == leaf_layout(v@, size as int, j),
{
    let n = v.len();
    let mut data: Vec<S> = Vec::new();
    let mut t: usize = 0;
    while t < 2 * size
        invariant
            t <= 2 * size,
            2 * size <= usize::MAX,
            n <= size,
            n == v@.len(),
            data@.len() == t,
            forall|j: int| 0 <= j < t ==> #[trigger] data@[j] == leaf_layout(v@, size as int, j),
        decreases 2 * size - t,
    {
        if size <= t && t < size + n {
            data.push(clone_value(&v[t - size]));
        } else {
            data.push(S::id());
        }
        t = t + 1;
    }
    data
}

/// Combines every internal node from its children, from the bottom up.
pub(crate) fn build<S: Monoid>(data: &mut Vec<S>, size: usize)
    requires
        old(data)@.len() == 2 * size,
        size >= 1,
        2 * size <= usize::MAX,
    ensures
        final(data)@.len() == 2 * size,
        forall|j: int| 1 <= j < size ==> #[trigger] inv_at(final(data)@, j),
        final(data)@.subrange(size as int, 2 * size) == old(data)@.subrange(
            size as int,
            2 * size,
        ),
{
    let mut i: usize = size;
    while i > 1
        invariant
            1 <= i <= size,
            2 * size <= usize::MAX,
            data@.len() == 2 * size,
            forall|j: int| i <= j < size ==> #[trigger] inv_at(data@, j),
            data@.subrange(size as int, 2 * size) == old(data)@.subrange(
                size as int,
                2 * size,
            ),
        decreases i,
    {
        i = i - 1;
        let ghost d0 = data@;
        let v = data[2 * i].op(&data[2 * i + 1]);
        data.set(i, v);
        proof {
            assert forall|j: int| i <= j < size implies #[trigger] inv_at(data@, j) by {
                if j != i {
                    assert(inv_at(d0, j));
                }
            }
            assert(data@.subrange(size as int, 2 * size) =~= d0.subrange(
                size as int,
                2 * size,
            ));
        }
    }
}


/// A segment tree for point updates and range folds over a monoid.
///
/// The nodes live in one array: index 1 is the root, node `i` has the children
/// `2i` and `2i + 1`, and the leaf of element `j` is `size + j`, where `size` is the
/// smallest power of two that is at least the number of elements. The leaves past
/// the last element hold the identity.
pub struct SegmentTree<S: Monoid> {
    data: Vec<S>,
    n: usize,
    size: usize,
    log: usize,
}

impl<S: Monoid> View for SegmentTree<S> {
    type V = Seq<S>;

    /// The elements, in order.
    closed spec fn view(&self) -> Seq<S> {
        self.data@.subrange(self.size as int, self.size + self.n)
    }
}

impl<S: Monoid> SegmentTree<S> {
    /// The tree's internal invariant.
    pub closed spec fn wf(&self) -> bool {
        &&& self.size == pow2(self.log as nat)
        &&& self.size >= 1
        &&& self.n <= self.size
        &&& 2 * self.size <= usize::MAX
        &&& self.data@.len() == 2 * self.size
        &&& forall|j: int| 1 <= j < self.size ==> #[trigger] inv_at(self.data@, j)
        &&& forall|j: int|
            self.size + self.n <= j < 2 * self.size ==> #[trigger] self.data@[j] == S::identity()
    }

    /// A node of height `k` holds the fold of the leaves under it.
    proof fn lemma_node_fold(&self, c: int, k: nat)
        requires
            self.wf(),
            node_at(self.size as int, c, k),
        ensures
            self.data@[c] == fold(self.data@.subrange(c * pow2(k), (c + 1) * pow2(k))),
        decreases k,
    {
        let d = self.data@;
        let size = self.size as int;
        if k == 0 {
            lemma_leaf_node(size, c);
            crate::heap::lemma_times_pow2_zero(c);
            crate::heap::lemma_times_pow2_zero(c + 1);
            assert(d.subrange(c * pow2(k), (c + 1) * pow2(k)) =~= seq![d[c]]);
            lemma_fold_single(d[c]);
        } else {
            let k1 = (k - 1) as nat;
            lemma_node_children(size, c, k);
            self.lemma_node_fold(2 * c, k1);
            self.lemma_node_fold(2 * c + 1, k1);
            assert(inv_at(d, c));
            let a = c * pow2(k);
            let m = (2 * c + 1) * pow2(k1);
            let b = (c + 1) * pow2(k);
            assert(d.subrange(a, b) =~= d.subrange(a, m) + d.subrange(m, b));
            lemma_fold_concat(d.subrange(a, m), d.subrange(m, b));
        }
    }

    /// The root holds the fold of all the elements.
    proof fn lemma_root_fold(&self)
        requires
            self.wf(),
        ensures
            self.data@[1] == fold(self@),
    {
        let d = self.data@;
        let size = self.size as int;
        lemma_pow2_pos(self.log as nat);
        assert(node_at(size, 1, self.log as nat));
        self.lemma_node_fold(1, self.log as nat);
        let pad = d.subrange(size + self.n, 2 * size);
        assert(d.subrange(1 * pow2(self.log as nat) as int, (1 + 1) * pow2(self.log as nat) as int)
            =~= self@ + pad);
        lemma_fold_concat(self@, pad);
        lemma_fold_identities(pad);
        S::lemma_right_identity(fold(self@));
    }

    /// Recomputes the strict ancestors of leaf `p`, from the bottom up.
    fn refresh_from(&mut self, p: usize)
        requires
            old(self).size == pow2(old(self).log as nat),
            old(self).size >= 1,
            old(self).n <= old(self).size,
            2 * old(self).size <= usize::MAX,
            old(self).data@.len() == 2 * old(self).size,
            old(self).size <= p < 2 * old(self).size,
            inv_except(old(self).data@, old(self).size as int, p as int),
            forall|j: int|
                old(self).size + old(self).n <= j < 2 * old(self).size
                    ==> #[trigger] old(self).data@[j] == S::identity(),
        ensures
            final(self).wf(),
            final(self).n == old(self).n,
            final(self).size == old(self).size,
            final(self).data@.subrange(final(self).size as int, 2 * final(self).size)
                == old(self).data@.subrange(old(self).size as int, 2 * old(self).size),
    {
        let ghost leaves = self.data@.subrange(self.size as int, 2 * self.size);
        let mut q = p;
        while q > 1
            invariant
                self.size == pow2(self.log as nat),
                self.size >= 1,
                self.n <= self.size,
                2 * self.size <= usize::MAX,
                self.data@.len() == 2 * self.size,
                1 <= q < 2 * self.size,
                inv_except(self.data@, self.size as int, q as int),
                forall|j: int|
                    self.size + self.n <= j < 2 * self.size ==> #[trigger] self.data@[j]
                        == S::identity(),
                self.data@.subrange(self.size as int, 2 * self.size) == leaves,
                self.n == old(self).n,
                self.size == old(self).size,
            decreases q,
        {
            let ghost d0 = self.data@;
            q = q / 2;
            let v = self.data[2 * q].op(&self.data[2 * q + 1]);
            self.data.set(q, v);
            proof {
                let d = self.data@;
                let size = self.size as int;
                let qi = q as int;
                assert forall|j: int|
                    1 <= j < size && !(desc(j, qi) && j != qi) implies #[trigger] inv_at(d, j) by {
                    if j != qi {
                        assert(!desc(j, qi));
                        assert(!(desc(j, 2 * qi) && j != 2 * qi) || !(desc(j, 2 * qi + 1) && j
                            != 2 * qi + 1));
                        assert((2 * qi) / 2 == qi && (2 * qi + 1) / 2 == qi);
                        assert(inv_at(d0, j));
                        if 2 * j == qi || 2 * j + 1 == qi {
                            assert(qi / 2 == j);
                            assert(desc(j, j));
                        }
                    }
                }
                assert(d.subrange(size, 2 * size) =~= d0.subrange(size, 2 * size));
            }
        }
        proof {
            let d = self.data@;
            assert forall|j: int| 1 <= j < self.size implies #[trigger] inv_at(d, j) by {
                if desc(j, 1) {
                    assert(j == 1);
                }
            }
        }
    }

    /// Creates a tree of `n` elements, all the identity.
    pub fn new(n: usize) -> (r: Self)
        requires
            n <= usize::MAX / 4,
        ensures
            r.wf(),
            r@ == Seq::new(n as nat, |i: int| S::identity()),
    {
        let (size, log) = capacity(n);
        let mut data: Vec<S> = Vec::new();
        let mut t: usize = 0;
        while t < 2 * size
            invariant
                t <= 2 * size,
                2 * size <= usize::MAX,
                data@.len() == t,
                forall|j: int| 0 <= j < t ==> #[trigger] data@[j] == S::identity(),
            decreases 2 * size - t,
        {
            data.push(S::id());
            t = t + 1;
        }
        let r = SegmentTree { data, n, size, log };
        proof {
            assert forall|j: int| 1 <= j < size implies #[trigger] inv_at(r.data@, j) by {
                S::lemma_left_identity(S::identity());
            }
            assert(r@ =~= Seq::new(n as nat, |i: int| S::identity()));
        }
        r
    }

    /// Creates a tree holding the given elements.
    pub fn from_vec(v: Vec<S>) -> (r: Self)
        requires
            v@.len() <= usize::MAX / 4,
        ensures
            r.wf(),
            r@ == v@,
    {
        let n = v.len();
        let (size, log) = capacity(n);
        let mut data = layout_vec(&v, size);
        let ghost d0 = data@;
        build(&mut data, size);
        Self::assemble(data, n, size, log, Ghost(d0), Ghost(v@))
    }

    /// Creates a tree holding the given elements.
    pub fn from_slice(v: &[S]) -> (r: Self)
        requires
            v@.len() <= usize::MAX / 4,
        ensures
            r.wf(),
            r@ == v@,
    {
        let n = v.len();
        let (size, log) = capacity(n);
        let mut data = layout_slice(v, size);
        let ghost d0 = data@;
        build(&mut data, size);
        Self::assemble(data, n, size, log, Ghost(d0), Ghost(v@))
    }

    fn assemble(data: Vec<S>, n: usize, size: usize, log: usize, d0: Ghost<Seq<S>>, v: Ghost<Seq<S>>) -> (r: Self)
        requires
            size == pow2(log as nat),
            size >= 1,
            n <= size,
            2 * size <= usize::MAX,
            n == v@.len(),
            data@.len() == 2 * size,
            forall|j: int| 1 <= j < size ==> #[trigger] inv_at(data@, j),
            data@.subrange(size as int, 2 * size) == d0@.subrange(size as int, 2 * size),
            d0@.len() == 2 * size,
            forall|j: int| 0 <= j < 2 * size ==> #[trigger] d0@[j] == leaf_layout(v@, size as int, j),
        ensures
            r.wf(),
            r@ == v@,
    {
        let r = SegmentTree { data, n, size, log };
        proof {
            assert forall|j: int| size + n <= j < 2 * size implies #[trigger] r.data@[j]
                == S::identity() by {
                assert(r.data@[j] == r.data@.subrange(size as int, 2 * size)[j - size]);
                assert(d0@[j] == d0@.subrange(size as int, 2 * size)[j - size]);
            }
            assert forall|j: int| 0 <= j < n implies #[trigger] r@[j] == v@[j] by {
                assert(r.data@[size + j] == r.data@.subrange(size as int, 2 * size)[j]);
                assert(d0@[size + j] == d0@.subrange(size as int, 2 * size)[j]);
            }
            assert(r@ =~= v@);
        }
        r
    }

    /// Sets the element at `i` to `x`.
    pub fn set(&mut self, i: usize, x: S)
        requires
            old(self).wf(),
            i < old(self)@.len(),
        ensures
            final(self).wf(),
            final(self)@ == old(self)@.update(i as int, x),
    {
        let ghost v0 = self@;
        let p = i + self.size;
        let ghost d0 = self.data@;
        self.data.set(p, x);
        proof {
            let d = self.data@;
            let size = self.size as int;
            assert forall|j: int|
                1 <= j < size && !(desc(j, p as int) && j != p) implies #[trigger] inv_at(d, j) by {
                assert(inv_at(d0, j));
                if 2 * j == p || 2 * j + 1 == p {
                    assert(desc(j, j));
                }
            }
        }
        let ghost l1 = self.data@.subrange(self.size as int, 2 * self.size);
        self.refresh_from(p);
        proof {
            let size = self.size as int;
            assert forall|j: int| 0 <= j < self.n implies #[trigger] self@[j] == v0.update(
                i as int,
                x,
            )[j] by {
                assert(self.data@[size + j] == self.data@.subrange(size, 2 * size)[j]);
                assert(l1[j] == self.data@.subrange(size, 2 * size)[j]);
            }
            assert(self@ =~= v0.update(i as int, x));
        }
    }

    /// Replaces the element at `i` with `op(a[i], x)`.
    pub fn operate(&mut self, i: usize, x: S)
        requires
            old(self).wf(),
            i < old(self)@.len(),
        ensures
            final(self).wf(),
            final(self)@ == old(self)@.update(i as int, S::combine(old(self)@[i as int], x)),
    {
        let v = self.data[i + self.size].op(&x);
        self.set(i, v);
    }

    /// Returns the element at `i`.
    pub fn get(&self, i: usize) -> (r: S)
        requires
            self.wf(),
            i < self@.len(),
        ensures
            r == self@[i as int],
    {
        clone_value(&self.data[i + self.size])
    }

    /// Returns `op(a[l], ..., a[r - 1])`, or the identity when `l == r`.
    pub fn range_fold(&self, l: usize, r: usize) -> (res: S)
        requires
            self.wf(),
            l <= r <= self@.len(),
        ensures
            res == fold(self@.subrange(l as int, r as int)),
    {
        let ghost d = self.data@;
        let ghost size = self.size as int;
        let ghost lo = size + l;
        let ghost hi = size + r;
        proof {
            assert(self@.subrange(l as int, r as int) =~= d.subrange(lo, hi));
        }
        if l == r {
            proof {
                assert(d.subrange(lo, hi) =~= Seq::<S>::empty());
            }
            return S::id();
        }
        let mut a: usize = l + self.size;
        let mut b: usize = r + self.size;
        let mut left = S::id();
        let mut right = S::id();
        let ghost mut k: nat = 0;
        proof {
            crate::heap::lemma_times_pow2_zero(a as int);
            crate::heap::lemma_times_pow2_zero(b as int);
            assert(d.subrange(lo, lo) =~= Seq::<S>::empty());
            assert(d.subrange(hi, hi) =~= Seq::<S>::empty());
        }
        while a < b
            invariant
                self.wf(),
                d == self.data@,
                size == self.size,
                lo == size + l,
                hi == size + r,
                hi <= 2 * size,
                1 <= a <= b <= 2 * size,
                pow2(k) >= 1,
                lo <= a * pow2(k) <= b * pow2(k) <= hi,
                left == fold(d.subrange(lo, a * pow2(k))),
                right == fold(d.subrange(b * pow2(k), hi)),
            decreases b - a,
        {
            let ghost p = pow2(k) as int;
            if a % 2 == 1 {
                proof {
                    assert((a + 1) * p <= b * p) by (nonlinear_arith)
                        requires
                            a + 1 <= b,
                            p >= 1,
                    ;
                    assert((a + 1) * p == a * p + p) by (nonlinear_arith);
                    assert(node_at(size, a as int, k));
                    self.lemma_node_fold(a as int, k);
                    assert(d.subrange(lo, (a + 1) * p) =~= d.subrange(lo, a * p) + d.subrange(
                        a * p,
                        (a + 1) * p,
                    ));
                    lemma_fold_concat(d.subrange(lo, a * p), d.subrange(a * p, (a + 1) * p));
                }
                left = left.op(&self.data[a]);
                a = a + 1;
            }
            if b % 2 == 1 {
                proof {
                    assert((b - 1) * p >= a * p) by (nonlinear_arith)
                        requires
                            a <= b - 1,
                            p >= 1,
                    ;
                    assert((b - 1) * p == b * p - p) by (nonlinear_arith);
                    assert(node_at(size, b - 1, k));
                    self.lemma_node_fold(b - 1, k);
                    assert(d.subrange((b - 1) * p, hi) =~= d.subrange((b - 1) * p, b * p)
                        + d.subrange(b * p, hi));
                    lemma_fold_concat(d.subrange((b - 1) * p, b * p), d.subrange(b * p, hi));
                    S::lemma_associative(
                        fold(d.subrange((b - 1) * p, b * p)),
                        fold(d.subrange(b * p, hi)),
                        S::identity(),
                    );
                }
                b = b - 1;
                right = self.data[b].op(&right);
            }
            proof {
                lemma_pow2_unfold(k + 1);
                assert((a / 2) * (2 * p) == a * p) by (nonlinear_arith)
                    requires
                        a % 2 == 0,
                ;
                assert((b / 2) * (2 * p) == b * p) by (nonlinear_arith)
                    requires
                        b % 2 == 0,
                ;
            }
            a = a / 2;
            b = b / 2;
            proof {
                k = k + 1;
            }
        }
        proof {
            assert(d.subrange(lo, hi) =~= d.subrange(lo, a * pow2(k)) + d.subrange(
                b * pow2(k),
                hi,
            ));
            lemma_fold_concat(d.subrange(lo, a * pow2(k)), d.subrange(b * pow2(k), hi));
        }
        left.op(&right)
    }

    /// Returns `op(a[0], ..., a[n - 1])`.
    pub fn all_fold(&self) -> (r: S)
        requires
            self.wf(),
        ensures
            r == fold(self@),
    {
        proof {
            self.lemma_root_fold();
        }
        clone_value(&self.data[1])
    }

    /// Returns the smallest `r` in `l ..= n` such that `pred(op(a[l], ..., a[r - 1]))`
    /// holds, trying `r = l, l + 1, ...` in turn; returns `n` when no smaller `r`
    /// qualifies. With a monotone `pred` this is the boundary where it turns true.
    pub fn max_right<P: Fn(&S) -> bool>(&self, l: usize, pred: P) -> (r: usize)
        requires
            self.wf(),
            l <= self@.len(),
            forall|s: &S| #[trigger] pred.requires((s,)),
        ensures
            l <= r <= self@.len(),
            forall|t: int|
                l <= t < r ==> #[trigger] pred.ensures((&fold(self@.subrange(l as int, t)),), false),
            r < self@.len() ==> pred.ensures((&fold(self@.subrange(l as int, r as int)),), true),
    {
        let n = self.len();
        let mut acc = S::id();
        let mut r = l;
        proof {
            assert(self@.subrange(l as int, l as int) =~= Seq::<S>::empty());
        }
        while r < n
            invariant
                self.wf(),
                n == self@.len(),
                l <= r <= n,
                acc == fold(self@.subrange(l as int, r as int)),
                forall|s: &S| #[trigger] pred.requires((s,)),
                forall|t: int|
                    l <= t < r ==> #[trigger] pred.ensures((&fold(self@.subrange(l as int, t)),), false),
            decreases n - r,
        {
            if pred(&acc) {
                return r;
            }
            let x = self.element(r);
            proof {
                assert(self@.subrange(l as int, r + 1) =~= self@.subrange(l as int, r as int).push(x));
                lemma_fold_push(self@.subrange(l as int, r as int), x);
            }
            acc = acc.op(&x);
            r = r + 1;
        }
        r
    }

    /// Returns the largest `l` in `0 ..= r` such that `pred(op(a[l], ..., a[r - 1]))`
    /// holds, trying `l = r, r - 1, ...` in turn; returns `0` when no larger `l`
    /// qualifies. With a monotone `pred` this is the boundary where it turns true.
    pub fn min_left<P: Fn(&S) -> bool>(&self, r: usize, pred: P) -> (l: usize)
        requires
            self.wf(),
            r <= self@.len(),
            forall|s: &S| #[trigger] pred.requires((s,)),
        ensures
            l <= r,
            forall|t: int|
                l < t <= r ==> #[trigger] pred.ensures((&fold(self@.subrange(t, r as int)),), false),
            l > 0 ==> pred.ensures((&fold(self@.subrange(l as int, r as int)),), true),
    {
        let mut acc = S::id();
        let mut l = r;
        proof {
            assert(self@.subrange(r as int, r as int) =~= Seq::<S>::empty());
        }
        while l > 0
            invariant
                self.wf(),
                l <= r <= self@.len(),
                acc == fold(self@.subrange(l as int, r as int)),
                forall|s: &S| #[trigger] pred.requires((s,)),
                forall|t: int|
                    l < t <= r ==> #[trigger] pred.ensures((&fold(self@.subrange(t, r as int)),), false),
            decreases l,
        {
            if pred(&acc) {
                return l;
            }
            let x = self.element(l - 1);
            proof {
                assert(self@.subrange(l - 1, r as int) =~= seq![x] + self@.subrange(l as int, r as int));
                lemma_fold_prepend(x, self@.subrange(l as int, r as int));
            }
            acc = x.op(&acc);
            l = l - 1;
        }
        0
    }

    fn element(&self, i: usize) -> (r: S)
        requires
            self.wf(),
            i < self@.len(),
        ensures
            r == self@[i as int],
    {
        clone_value(&self.data[i + self.size])
    }

    /// Returns the number of elements.
    pub fn len(&self) -> (r: usize)
        requires
            self.wf(),
        ensures
            r == self@.len(),
    {
        self.n
    }

    /// Returns `true` when the tree holds no element.
    pub fn is_empty(&self) -> (r: bool)
        requires
            self.wf(),
        ensures
            r == (self@.len() == 0),
    {
        self.n == 0
    }
}

} // verus!
