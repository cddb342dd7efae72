use vstd::prelude::*;
pub use crate::algebra::Monoid;
use crate::algebra::{
    fold, clone_value, lemma_fold_concat, lemma_fold_push, lemma_fold_prepend,
    lemma_fold_single,
};

verus! {

/// A monoid in which every element has an inverse.
pub trait HasInverse: Monoid {
    /// The inverse, as a mathematical function.
    spec fn inverse(x: Self) -> Self;

    /// `op(x, inv(x)) == id()` and `op(inv(x), x) == id()`
    proof fn lemma_inverse(x: Self)
        ensures
            Self::combine(x, Self::inverse(x)) == Self::identity(),
            Self::combine(Self::inverse(x), x) == Self::identity(),
    ;

    /// Returns the inverse of the element.
    fn inv(&self) -> (r: Self)
        ensures
            r == Self::inverse(*self),
    ;
}

/// A group: a monoid with inverses.
pub trait Group: Monoid + HasInverse {

}

impl<T: Monoid + HasInverse> Group for T {

}

/// The first position folded into node `i`: node `i` holds `a[i & (i - 1) .. i]`.
pub open spec fn node_start(i: usize) -> usize {
    i & ((i - 1) as usize)
}

proof fn lemma_node_start(i: usize)
    requires
        i > 0,
    ensures
        node_start(i) < i,
{
    assert(i & ((i - 1) as usize) < i) by (bit_vector)
        requires
            i > 0,
    ;
}

/// A commutative monoid: the order of operands does not matter.
pub open spec fn commutative<S: Monoid>() -> bool {
    forall|a: S, b: S| #[trigger] S::combine(a, b) == S::combine(b, a)
}


proof fn lemma_next_node(j: usize)
    requires
        0 < j,
        j <= usize::MAX / 2,
    ensures
        (j + (j - node_start(j))) as usize & (((j + (j - node_start(j))) as usize - 1) as usize)
            <= node_start(j),
        j < j + (j - node_start(j)),
        j + (j - node_start(j)) <= 2 * j,
{
    lemma_node_start(j);
    let n = (j + (j - node_start(j))) as usize;
    assert(n & ((n - 1) as usize) <= j & ((j - 1) as usize)) by (bit_vector)
        requires
            0 < j,
            j <= 0x7fff_ffff_ffff_ffff,
            n == j + (j - (j & ((j - 1) as usize))),
    ;
}

proof fn lemma_skipped_node(j: usize, k: usize)
    requires
        0 < j < k,
        j <= usize::MAX / 2,
        k < j + (j - node_start(j)),
    ensures
        node_start(k) >= j,
{
    lemma_node_start(j);
    assert(k & ((k - 1) as usize) >= j) by (bit_vector)
        requires
            0 < j,
            j < k,
            j <= 0x7fff_ffff_ffff_ffff,
            k < j + (j - (j & ((j - 1) as usize))),
    ;
}

/// With a commutative operation, combining `x` onto a fold combines it onto the
/// element at `i` inside.
proof fn lemma_fold_combine_inside<S: Monoid>(a: Seq<S>, s: int, e: int, i: int, x: S)
    requires
        commutative::<S>(),
        0 <= s <= i < e <= a.len(),
    ensures
        fold(a.update(i, S::combine(a[i], x)).subrange(s, e)) == S::combine(
            fold(a.subrange(s, e)),
            x,
        ),
{
    let b = a.update(i, S::combine(a[i], x));
    let p = a.subrange(s, i);
    let q = a.subrange(i + 1, e);
    assert(b.subrange(s, e) =~= p + (seq![S::combine(a[i], x)] + q));
    assert(a.subrange(s, e) =~= p + (seq![a[i]] + q));
    lemma_fold_concat(p, seq![S::combine(a[i], x)] + q);
    lemma_fold_concat(p, seq![a[i]] + q);
    lemma_fold_prepend(S::combine(a[i], x), q);
    lemma_fold_prepend(a[i], q);
    let fp = fold(p);
    let fq = fold(q);
    assert(S::combine(x, fq) == S::combine(fq, x));
    S::lemma_associative(a[i], x, fq);
    S::lemma_associative(a[i], fq, x);
    S::lemma_associative(fp, S::combine(a[i], fq), x);
}

/// `op(inv(p), op(p, y)) == y`
proof fn lemma_cancel<S: HasInverse>(p: S, y: S)
    ensures
        S::combine(S::inverse(p), S::combine(p, y)) == y,
{
    S::lemma_associative(S::inverse(p), p, y);
    S::lemma_inverse(p);
    S::lemma_left_identity(y);
}

/// A Fenwick tree (binary indexed tree) for prefix folds.
///
/// Node `i` (from 1) holds the fold of the elements `i & (i - 1) .. i`; node 0
/// holds the identity.
pub struct FenwickTree<S: Monoid> {
    data: Vec<S>,
    elems: Ghost<Seq<S>>,
}

impl<S: Monoid> View for FenwickTree<S> {
    type V = Seq<S>;

    /// The elements, in order.
    closed spec fn view(&self) -> Seq<S> {
        self.elems@
    }
}

impl<S: Monoid> FenwickTree<S> {
    /// The tree's internal invariant.
    pub closed spec fn wf(&self) -> bool {
        &&& self.data@.len() == self.elems@.len() + 1
        &&& self.data@.len() <= usize::MAX
        &&& self.data@[0] == S::identity()
        &&& forall|i: int|
            1 <= i < self.data@.len() ==> #[trigger] self.data@[i] == fold(
                self.elems@.subrange(node_start(i as usize) as int, i),
            )
    }

    /// Creates a tree of `n` elements, all the identity.
    pub fn new(n: usize) -> (r: Self)
        requires
            n + 2 <= usize::MAX,
        ensures
            r.wf(),
            r@ == Seq::new(n as nat, |i: int| S::identity()),
    {
        let mut r = Self::with_capacity(n);
        let mut t: usize = 0;
        while t < n
            invariant
                t <= n,
                n + 2 <= usize::MAX,
                r.wf(),
                r@ == Seq::new(t as nat, |i: int| S::identity()),
            decreases n - t,
        {
            r.push(S::id());
            proof {
                assert(r@ =~= Seq::new((t + 1) as nat, |i: int| S::identity()));
            }
            t = t + 1;
        }
        r
    }

    /// Creates an empty tree with room for `capacity` elements.
    pub fn with_capacity(capacity: usize) -> (r: Self)
        ensures
            r.wf(),
            r@ == Seq::<S>::empty(),
    {
        let mut data: Vec<S> = if capacity < usize::MAX {
            Vec::with_capacity(capacity + 1)
        } else {
            Vec::new()
        };
        data.push(S::id());
        FenwickTree { data, elems: Ghost(Seq::empty()) }
    }

    /// Reserves room for at least `additional` more elements.
    pub fn reserve(&mut self, additional: usize)
        requires
            old(self).wf(),
        ensures
            final(self).wf(),
            final(self)@ == old(self)@,
    {
        self.data.reserve(additional);
    }

    /// Appends `x` as the last element.
    pub fn push(&mut self, x: S)
        requires
            old(self).wf(),
            old(self)@.len() + 2 <= usize::MAX,
        ensures
            final(self).wf(),
            final(self)@ == old(self)@.push(x),
    {
        let ghost a = self.elems@.push(x);
        let m = self.data.len();
        proof {
            assert(m & ((m - 1) as usize) < m) by (bit_vector)
                requires
                    m > 0,
            ;
            assert(1usize & ((1usize - 1) as usize) == 0) by (bit_vector);
        }
        let lsb = m - (m & (m - 1));
        let mut acc = x;
        let mut t: usize = 1;
        proof {
            assert(a.subrange(m - 1, m as int) =~= seq![x]);
            lemma_fold_single(x);
        }
        while t < lsb
            invariant
                self.wf(),
                m == self.data@.len(),
                a == self.elems@.push(x),
                1 <= t <= lsb <= m,
                t & ((t - 1) as usize) == 0,
                lsb == m - (m & ((m - 1) as usize)),
                acc == fold(a.subrange(m - t, m as int)),
            decreases lsb - t,
        {
            proof {
                assert(node_start((m - t) as usize) == m - 2 * t && 2 * t <= lsb) by (bit_vector)
                    requires
                        t & ((t - 1) as usize) == 0,
                        t != 0,
                        t < lsb,
                        lsb == m - (m & ((m - 1) as usize)),
                ;
                let j = (m - t) as int;
                assert(self.data@[j] == fold(self.elems@.subrange(m - 2 * t, j)));
                assert(self.elems@.subrange(m - 2 * t, j) =~= a.subrange(m - 2 * t, j));
                assert(a.subrange(m - 2 * t, m as int) =~= a.subrange(m - 2 * t, j) + a.subrange(
                    j,
                    m as int,
                ));
                lemma_fold_concat(a.subrange(m - 2 * t, j), a.subrange(j, m as int));
            }
            acc = self.data[m - t].op(&acc);
            proof {
                assert(((2 * t) as usize) & ((2 * t - 1) as usize) == 0) by (bit_vector)
                    requires
                        t & ((t - 1) as usize) == 0,
                        t != 0,
                        2 * t <= lsb,
                        lsb == m - (m & ((m - 1) as usize)),
                ;
            }
            t = t * 2;
        }
        proof {
            assert(node_start(m) == m - lsb) by (bit_vector)
                requires
                    lsb == m - (m & ((m - 1) as usize)),
                    m > 0,
            ;
        }
        let ghost d0 = self.data@;
        self.data.push(acc);
        proof {
            self.elems@ = a;
            assert forall|i: int| 1 <= i < self.data@.len() implies #[trigger] self.data@[i] == fold(
                self.elems@.subrange(node_start(i as usize) as int, i),
            ) by {
                if i < m {
                    lemma_node_start(i as usize);
                    assert(d0[i] == fold(old(self).elems@.subrange(node_start(i as usize) as int, i)));
                    assert(old(self).elems@.subrange(node_start(i as usize) as int, i)
                        =~= a.subrange(node_start(i as usize) as int, i));
                }
            }
        }
    }

    /// Removes the last element; returns the fold that its node held.
    pub fn pop(&mut self) -> (r: Option<S>)
        requires
            old(self).wf(),
        ensures
            final(self).wf(),
            old(self)@.len() == 0 ==> r.is_none() && final(self)@ == old(self)@,
            old(self)@.len() > 0 ==> r == Some(
                fold(
                    old(self)@.subrange(
                        node_start(old(self)@.len() as usize) as int,
                        old(self)@.len() as int,
                    ),
                ),
            ) && final(self)@ == old(self)@.drop_last(),
    {
        if self.data.len() == 1 {
            None
        } else {
            let ghost n = self.elems@.len();
            let r = self.data.pop();
            proof {
                let a = self.elems@.drop_last();
                assert forall|i: int| 1 <= i < self.data@.len() implies #[trigger] self.data@[i]
                    == fold(a.subrange(node_start(i as usize) as int, i)) by {
                    lemma_node_start(i as usize);
                    assert(old(self).data@[i] == fold(
                        old(self).elems@.subrange(node_start(i as usize) as int, i),
                    ));
                    assert(old(self).elems@.subrange(node_start(i as usize) as int, i)
                        =~= a.subrange(node_start(i as usize) as int, i));
                }
                self.elems@ = a;
            }
            r
        }
    }

    /// Creates a tree holding the given elements.
    pub fn from_vec(v: Vec<S>) -> (r: Self)
        requires
            v@.len() + 2 <= usize::MAX,
        ensures
            r.wf(),
            r@ == v@,
    {
        let n = v.len();
        let mut r = Self::with_capacity(n);
        let mut t: usize = 0;
        while t < n
            invariant
                t <= n,
                n == v@.len(),
                n + 2 <= usize::MAX,
                r.wf(),
                r@ == v@.subrange(0, t as int),
            decreases n - t,
        {
            r.push(clone_value(&v[t]));
            proof {
                assert(v@.subrange(0, t + 1) =~= v@.subrange(0, t as int).push(v@[t as int]));
            }
            t = t + 1;
        }
        proof {
            assert(v@.subrange(0, n as int) =~= v@);
        }
        r
    }

    /// Creates a tree holding the given elements.
    pub fn from_slice(v: &[S]) -> (r: Self)
        requires
            v@.len() + 2 <= usize::MAX,
        ensures
            r.wf(),
            r@ == v@,
    {
        let n = v.len();
        let mut r = Self::with_capacity(n);
        let mut t: usize = 0;
        while t < n
            invariant
                t <= n,
                n == v@.len(),
                n + 2 <= usize::MAX,
                r.wf(),
                r@ == v@.subrange(0, t as int),
            decreases n - t,
        {
            r.push(clone_value(&v[t]));
            proof {
                assert(v@.subrange(0, t + 1) =~= v@.subrange(0, t as int).push(v@[t as int]));
            }
            t = t + 1;
        }
        proof {
            assert(v@.subrange(0, n as int) =~= v@);
        }
        r
    }

    /// Replaces the element at `i` with `op(a[i], x)`. The operation must be
    /// commutative: each node covering `i` takes `x` on its right.
    pub fn operate(&mut self, i: usize, x: S)
        requires
            old(self).wf(),
            i < old(self)@.len(),
            old(self)@.len() <= usize::MAX / 2,
            commutative::<S>(),
        ensures
            final(self).wf(),
            final(self)@ == old(self)@.update(i as int, S::combine(old(self)@[i as int], x)),
    {
        let ghost a = self.elems@;
        let ghost a2 = a.update(i as int, S::combine(a[i as int], x));
        let len = self.data.len();
        let mut j = i + 1;
        proof {
            lemma_node_start(j);
            assert forall|k: int| 1 <= k < len implies #[trigger] self.data@[k] == fold(
                (if k < j { a2 } else { a }).subrange(node_start(k as usize) as int, k),
            ) by {
                lemma_node_start(k as usize);
                if k < j {
                    assert(a2.subrange(node_start(k as usize) as int, k) =~= a.subrange(
                        node_start(k as usize) as int,
                        k,
                    ));
                }
            }
        }
        while j < len
            invariant
                len == self.data@.len(),
                len == a.len() + 1,
                len <= usize::MAX / 2 + 1,
                a == self.elems@,
                a2 == a.update(i as int, S::combine(a[i as int], x)),
                i < a.len(),
                i < j,
                j <= 2 * len,
                j < len ==> node_start(j) <= i,
                self.data@[0] == S::identity(),
                commutative::<S>(),
                forall|k: int|
                    1 <= k < len ==> #[trigger] self.data@[k] == fold(
                        (if k < j { a2 } else { a }).subrange(node_start(k as usize) as int, k),
                    ),
            decreases 2 * len - j,
        {
            proof {
                lemma_fold_combine_inside(a, node_start(j) as int, j as int, i as int, x);
                lemma_next_node(j);
            }
            let v = self.data[j].op(&x);
            self.data.set(j, v);
            let ghost j0 = j;
            j = j + (j - (j & (j - 1)));
            proof {
                assert forall|k: int| 1 <= k < len implies #[trigger] self.data@[k] == fold(
                    (if k < j { a2 } else { a }).subrange(node_start(k as usize) as int, k),
                ) by {
                    lemma_node_start(k as usize);
                    if j0 < k < j {
                        lemma_skipped_node(j0, k as usize);
                        assert(a2.subrange(node_start(k as usize) as int, k) =~= a.subrange(
                            node_start(k as usize) as int,
                            k,
                        ));
                    }
                }
            }
        }
        proof {
            self.elems@ = a2;
        }
    }

    /// Returns `op(a[0], ..., a[r - 1])`.
    pub fn prefix_fold(&self, r: usize) -> (res: S)
        requires
            self.wf(),
            r <= self@.len(),
        ensures
            res == fold(self@.subrange(0, r as int)),
    {
        let mut res = S::id();
        let mut k = r;
        proof {
            assert(self@.subrange(r as int, r as int) =~= Seq::<S>::empty());
        }
        while k > 0
            invariant
                self.wf(),
                k <= r <= self@.len(),
                res == fold(self@.subrange(k as int, r as int)),
            decreases k,
        {
            proof {
                lemma_node_start(k);
                let s = node_start(k) as int;
                assert(self.data@[k as int] == fold(self@.subrange(s, k as int)));
                assert(self@.subrange(s, r as int) =~= self@.subrange(s, k as int) + self@.subrange(
                    k as int,
                    r as int,
                ));
                lemma_fold_concat(self@.subrange(s, k as int), self@.subrange(k as int, r as int));
            }
            res = self.data[k].op(&res);
            k = k & (k - 1);
        }
        proof {
            assert(self@.subrange(0, r as int) =~= self@.subrange(k as int, r as int));
        }
        res
    }

    /// Returns `op(a[0], ..., a[n - 1])`.
    pub fn all_fold(&self) -> (r: S)
        requires
            self.wf(),
        ensures
            r == fold(self@),
    {
        let r = self.prefix_fold(self.len());
        proof {
            assert(self@.subrange(0, self@.len() as int) =~= self@);
        }
        r
    }

    /// Returns the smallest `r` in `0 ..= n` such that `pred(prefix_fold(r))` holds,
    /// trying `r = 0, 1, ...` in turn; returns `n` when no smaller `r` qualifies.
    pub fn lower_bound<P: Fn(&S) -> bool>(&self, pred: P) -> (r: usize)
        requires
            self.wf(),
            forall|s: &S| #[trigger] pred.requires((s,)),
        ensures
            r <= self@.len(),
            forall|t: int| 0 <= t < r ==> #[trigger] pred.ensures((&fold(self@.subrange(0, t)),), false),
            r < self@.len() ==> pred.ensures((&fold(self@.subrange(0, r as int)),), true),
    {
        let n = self.len();
        let mut r: usize = 0;
        while r < n
            invariant
                self.wf(),
                n == self@.len(),
                r <= n,
                forall|s: &S| #[trigger] pred.requires((s,)),
                forall|t: int| 0 <= t < r ==> #[trigger] pred.ensures((&fold(self@.subrange(0, t)),), false),
            decreases n - r,
        {
            let acc = self.prefix_fold(r);
            if pred(&acc) {
                return r;
            }
            r = r + 1;
        }
        r
    }

    /// Returns the number of elements.
    pub fn len(&self) -> (r: usize)
        requires
            self.wf(),
        ensures
            r == self@.len(),
    {
        self.data.len() - 1
    }

    /// Returns `true` when the tree holds no element.
    pub fn is_empty(&self) -> (r: bool)
        requires
            self.wf(),
        ensures
            r == (self@.len() == 0),
    {
        self.len() == 0
    }
}

impl<S: Group> FenwickTree<S> {
    /// Sets the element at `i` to `x`. The operation must be commutative.
    pub fn set(&mut self, i: usize, x: S)
        requires
            old(self).wf(),
            i < old(self)@.len(),
            old(self)@.len() <= usize::MAX / 2,
            commutative::<S>(),
        ensures
            final(self).wf(),
            final(self)@ == old(self)@.update(i as int, x),
    {
        let cur = self.get(i);
        let diff = cur.inv().op(&x);
        self.operate(i, diff);
        proof {
            S::lemma_associative(cur, S::inverse(cur), x);
            S::lemma_inverse(cur);
            S::lemma_left_identity(x);
        }
    }

    /// Returns the element at `i`.
    pub fn get(&self, i: usize) -> (r: S)
        requires
            self.wf(),
            i < self@.len(),
        ensures
            r == self@[i as int],
    {
        let p = self.prefix_fold(i);
        let q = self.prefix_fold(i + 1);
        proof {
            assert(self@.subrange(0, i + 1) =~= self@.subrange(0, i as int).push(self@[i as int]));
            lemma_fold_push(self@.subrange(0, i as int), self@[i as int]);
            lemma_cancel(p, self@[i as int]);
        }
        p.inv().op(&q)
    }

    /// Returns `op(a[l], ..., a[r - 1])`, or the identity when `l == r`.
    pub fn range_fold(&self, l: usize, r: usize) -> (res: S)
        requires
            self.wf(),
            l <= r <= self@.len(),
        ensures
            res == fold(self@.subrange(l as int, r as int)),
    {
        let p = self.prefix_fold(l);
        let q = self.prefix_fold(r);
        proof {
            assert(self@.subrange(0, r as int) =~= self@.subrange(0, l as int) + self@.subrange(
                l as int,
                r as int,
            ));
            lemma_fold_concat(self@.subrange(0, l as int), self@.subrange(l as int, r as int));
            lemma_cancel(p, fold(self@.subrange(l as int, r as int)));
        }
        p.inv().op(&q)
    }
}


} // verus!
