use vstd::prelude::*;
use vstd::arithmetic::power2::{pow2, lemma_pow2_unfold, lemma_pow2_pos};
use vstd::pervasive::strictly_cloned;
use crate::heap::{
    desc, node_at, capacity, lemma_leaf_node, lemma_node_children, lemma_times_pow2_zero,
};

verus! {

/// What the operation `op` returns on `a` and `b`.
pub open spec fn comb<S, Op: Fn(&S, &S) -> S>(op: Op, a: S, b: S) -> S {
    choose|r: S| op.ensures((&a, &b), r)
}

/// `op` may be called on any two elements, returns one determined result, and is
/// associative with `id` as a two-sided identity; a clone of an element equals it.
pub open spec fn lawful<S: Clone, Op: Fn(&S, &S) -> S>(op: Op, id: S) -> bool {
    &&& forall|a: &S, b: &S| #[trigger] op.requires((a, b))
    &&& forall|a: S, b: S, r: S| #[trigger] op.ensures((&a, &b), r) ==> r == comb(op, a, b)
    &&& forall|x: S| #[trigger] comb(op, id, x) == x
    &&& forall|x: S| #[trigger] comb(op, x, id) == x
    &&& forall|x: S, y: S, z: S|
        #[trigger] comb(op, comb(op, x, y), z) == comb(op, x, comb(op, y, z))
    &&& forall|a: S, b: S| #[trigger] strictly_cloned(a, b) ==> a == b
}

/// `op(s[0], ..., s[len - 1])`, or `id` for an empty sequence.
pub open spec fn fold_with<S, Op: Fn(&S, &S) -> S>(op: Op, id: S, s: Seq<S>) -> S
    decreases s.len(),
{
    if s.len() == 0 {
        id
    } else {
        comb(op, fold_with(op, id, s.drop_last()), s.last())
    }
}

pub proof fn lemma_fold_with_single<S: Clone, Op: Fn(&S, &S) -> S>(op: Op, id: S, x: S)
    requires
        lawful(op, id),
    ensures
        fold_with(op, id, seq![x]) == x,
{
    assert(seq![x].drop_last() =~= Seq::<S>::empty());
    assert(fold_with(op, id, Seq::<S>::empty()) == id);
    assert(comb(op, id, x) == x);
}

pub proof fn lemma_fold_with_concat<S: Clone, Op: Fn(&S, &S) -> S>(
    op: Op,
    id: S,
    a: Seq<S>,
    b: Seq<S>,
)
    requires
        lawful(op, id),
    ensures
        fold_with(op, id, a + b) == comb(op, fold_with(op, id, a), fold_with(op, id, b)),
    decreases b.len(),
{
    if b.len() == 0 {
        assert(a + b =~= a);
        assert(comb(op, fold_with(op, id, a), id) == fold_with(op, id, a));
    } else {
        let b1 = b.drop_last();
        assert((a + b).drop_last() =~= a + b1);
        assert((a + b).last() == b.last());
        lemma_fold_with_concat(op, id, a, b1);
        assert(comb(op, comb(op, fold_with(op, id, a), fold_with(op, id, b1)), b.last()) == comb(
            op,
            fold_with(op, id, a),
            comb(op, fold_with(op, id, b1), b.last()),
        ));
    }
}

pub proof fn lemma_fold_with_push<S: Clone, Op: Fn(&S, &S) -> S>(op: Op, id: S, s: Seq<S>, x: S)
    ensures
        fold_with(op, id, s.push(x)) == comb(op, fold_with(op, id, s), x),
{
    assert(s.push(x).drop_last() =~= s);
}

pub proof fn lemma_fold_with_prepend<S: Clone, Op: Fn(&S, &S) -> S>(op: Op, id: S, x: S, s: Seq<S>)
    requires
        lawful(op, id),
    ensures
        fold_with(op, id, seq![x] + s) == comb(op, x, fold_with(op, id, s)),
{
    lemma_fold_with_concat(op, id, seq![x], s);
    lemma_fold_with_single(op, id, x);
}

pub proof fn lemma_fold_with_identities<S: Clone, Op: Fn(&S, &S) -> S>(op: Op, id: S, s: Seq<S>)
    requires
        lawful(op, id),
        forall|i: int| 0 <= i < s.len() ==> s[i] == id,
    ensures
        fold_with(op, id, s) == id,
    decreases s.len(),
{
    if s.len() > 0 {
        lemma_fold_with_identities(op, id, s.drop_last());
        assert(comb(op, id, id) == id);
    }
}

fn clone_lawful<S: Clone, Op: Fn(&S, &S) -> S>(op: Ghost<Op>, id: Ghost<S>, x: &S) -> (r: S)
    requires
        lawful(op@, id@),
    ensures
        r == *x,
{
    let r = x.clone();
    proof {
        assert(strictly_cloned(*x, r));
    }
    r
}

/// Node `i` holds the combination of its two children.
pub open spec fn inv_with<S, Op: Fn(&S, &S) -> S>(op: Op, d: Seq<S>, i: int) -> bool {
    d[i] == comb(op, d[2 * i], d[2 * i + 1])
}

/// A segment tree whose monoid is given at run time: an identity element and a
/// closure that combines two elements.
///
/// The layout is that of [`crate::segment_tree::SegmentTree`].
#[verifier::reject_recursive_types(S)]
pub struct SegmentTreeWith<S, Op> where S: Clone, Op: Fn(&S, &S) -> S {
    data: Vec<S>,
    id: S,
    op: Op,
    n: usize,
    size: usize,
    log: usize,
}

impl<S, Op> View for SegmentTreeWith<S, Op> where S: Clone, Op: Fn(&S, &S) -> S {
    type V = Seq<S>;

    /// The elements, in order.
    closed spec fn view(&self) -> Seq<S> {
        self.data@.subrange(self.size as int, self.size + self.n)
    }
}

impl<S, Op> SegmentTreeWith<S, Op> where S: Clone, Op: Fn(&S, &S) -> S {
    /// The closure that combines elements.
    pub closed spec fn operation(&self) -> Op {
        self.op
    }

    /// The identity element.
    pub closed spec fn identity(&self) -> S {
        self.id
    }

    spec fn shape(&self) -> bool {
        &&& lawful(self.op, self.id)
        &&& self.size == pow2(self.log as nat)
        &&& self.size >= 1
        &&& self.n <= self.size
        &&& 2 * self.size <= usize::MAX
        &&& self.data@.len() == 2 * self.size
        &&& forall|j: int|
            self.size + self.n <= j < 2 * self.size ==> #[trigger] self.data@[j] == self.id
    }

    /// The tree's internal invariant.
    pub closed spec fn wf(&self) -> bool {
        &&& self.shape()
        &&& forall|j: int| 1 <= j < self.size ==> #[trigger] inv_with(self.op, self.data@, j)
    }

    fn clone_elem(&self, x: &S) -> (r: S)
        requires
            lawful(self.op, self.id),
        ensures
            r == *x,
    {
        clone_lawful::<S, Op>(Ghost(self.op), Ghost(self.id), x)
    }

    fn combine(&self, a: &S, b: &S) -> (r: S)
        requires
            lawful(self.op, self.id),
        ensures
            r == comb(self.op, *a, *b),
    {
        (self.op)(a, b)
    }

    proof fn lemma_node_fold(&self, c: int, k: nat)
        requires
            self.wf(),
            node_at(self.size as int, c, k),
        ensures
            self.data@[c] == fold_with(
                self.op,
                self.id,
                self.data@.subrange(c * pow2(k), (c + 1) * pow2(k)),
            ),
        decreases k,
    {
        let d = self.data@;
        let size = self.size as int;
        if k == 0 {
            lemma_leaf_node(size, c);
            lemma_times_pow2_zero(c);
            lemma_times_pow2_zero(c + 1);
            assert(d.subrange(c * pow2(k), (c + 1) * pow2(k)) =~= seq![d[c]]);
            lemma_fold_with_single(self.op, self.id, d[c]);
        } else {
            let k1 = (k - 1) as nat;
            lemma_node_children(size, c, k);
            self.lemma_node_fold(2 * c, k1);
            self.lemma_node_fold(2 * c + 1, k1);
            assert(inv_with(self.op, d, c));
            let a = c * pow2(k);
            let m = (2 * c + 1) * pow2(k1);
            let b = (c + 1) * pow2(k);
            assert(d.subrange(a, b) =~= d.subrange(a, m) + d.subrange(m, b));
            lemma_fold_with_concat(self.op, self.id, d.subrange(a, m), d.subrange(m, b));
        }
    }

    fn refresh_from(&mut self, p: usize)
        requires
            old(self).shape(),
            old(self).size <= p < 2 * old(self).size,
            forall|j: int|
                1 <= j < old(self).size && !(desc(j, p as int) && j != p) ==> #[trigger] inv_with(
                    old(self).op,
                    old(self).data@,
                    j,
                ),
        ensures
            final(self).wf(),
            final(self).n == old(self).n,
            final(self).size == old(self).size,
            final(self).op == old(self).op,
            final(self).id == old(self).id,
            final(self).data@.subrange(final(self).size as int, 2 * final(self).size)
                == old(self).data@.subrange(old(self).size as int, 2 * old(self).size),
    {
        let ghost leaves = self.data@.subrange(self.size as int, 2 * self.size);
        let mut q = p;
        while q > 1
            invariant
                self.shape(),
                1 <= q < 2 * self.size,
                forall|j: int|
                    1 <= j < self.size && !(desc(j, q as int) && j != q) ==> #[trigger] inv_with(
                        self.op,
                        self.data@,
                        j,
                    ),
                self.data@.subrange(self.size as int, 2 * self.size) == leaves,
                self.n == old(self).n,
                self.size == old(self).size,
                self.op == old(self).op,
                self.id == old(self).id,
            decreases q,
        {
            let ghost d0 = self.data@;
            q = q / 2;
            let v = self.combine(&self.data[2 * q], &self.data[2 * q + 1]);
            self.data.set(q, v);
            proof {
                let d = self.data@;
                let size = self.size as int;
                let qi = q as int;
                assert forall|j: int|
                    1 <= j < size && !(desc(j, qi) && j != qi) implies #[trigger] inv_with(
                    self.op,
                    d,
                    j,
                ) by {
                    if j != qi {
                        assert(!desc(j, qi));
                        assert((2 * qi) / 2 == qi && (2 * qi + 1) / 2 == qi);
                        assert(inv_with(self.op, d0, j));
                        if 2 * j == qi || 2 * j + 1 == qi {
                            assert(qi / 2 == j);
                            assert(desc(j, j));
                        }
                    }
                }
                assert(d.subrange(size, 2 * size) =~= d0.subrange(size, 2 * size));
                assert forall|j: int| size + self.n <= j < 2 * size implies #[trigger] d[j] == self.id by {
                    assert(d0[j] == self.id);
                }
            }
        }
        proof {
            let d = self.data@;
            assert forall|j: int| 1 <= j < self.size implies #[trigger] inv_with(self.op, d, j) by {
                if desc(j, 1) {
                    assert(j == 1);
                }
            }
        }
    }

    /// Creates a tree of `n` elements, all `id`.
    pub fn new(n: usize, id: S, op: Op) -> (r: Self)
        requires
            n <= usize::MAX / 4,
            lawful(op, id),
        ensures
            r.wf(),
            r.operation() == op,
            r.identity() == id,
            r@ == Seq::new(n as nat, |i: int| id),
    {
        Self::from_fn(n, id, op, Ghost(Seq::new(n as nat, |i: int| id)), None)
    }

    /// Creates a tree holding the given elements.
    pub fn from_vec(v: Vec<S>, id: S, op: Op) -> (r: Self)
        requires
            v@.len() <= usize::MAX / 4,
            lawful(op, id),
        ensures
            r.wf(),
            r.operation() == op,
            r.identity() == id,
            r@ == v@,
    {
        let n = v.len();
        Self::from_fn(n, id, op, Ghost(v@), Some(&v))
    }

    /// Creates a tree holding the given elements.
    pub fn from_slice(v: &[S], id: S, op: Op) -> (r: Self)
        requires
            v@.len() <= usize::MAX / 4,
            lawful(op, id),
        ensures
            r.wf(),
            r.operation() == op,
            r.identity() == id,
            r@ == v@,
    {
        let n = v.len();
        let mut copy: Vec<S> = Vec::new();
        let mut t: usize = 0;
        while t < n
            invariant
                t <= n,
                n == v@.len(),
                lawful(op, id),
                copy@ == v@.subrange(0, t as int),
            decreases n - t,
        {
            let x = clone_lawful::<S, Op>(Ghost(op), Ghost(id), &v[t]);
            copy.push(x);
            proof {
                assert(copy@ =~= v@.subrange(0, t + 1));
            }
            t = t + 1;
        }
        proof {
            assert(v@.subrange(0, n as int) =~= v@);
        }
        Self::from_fn(n, id, op, Ghost(v@), Some(&copy))
    }

    fn from_fn(n: usize, id: S, op: Op, vals: Ghost<Seq<S>>, v: Option<&Vec<S>>) -> (r: Self)
        requires
            n <= usize::MAX / 4,
            lawful(op, id),
            vals@.len() == n,
            v.is_none() ==> vals@ == Seq::new(n as nat, |i: int| id),
            v.is_some() ==> v.unwrap()@ == vals@,
        ensures
            r.wf(),
            r.operation() == op,
            r.identity() == id,
            r@ == vals@,
    {
        let (size, log) = capacity(n);
        let mut data: Vec<S> = Vec::new();
        let mut t: usize = 0;
        while t < 2 * size
            invariant
                t <= 2 * size,
                2 * size <= usize::MAX,
                n <= size,
                lawful(op, id),
                vals@.len() == n,
                v.is_none() ==> vals@ == Seq::new(n as nat, |i: int| id),
                v.is_some() ==> v.unwrap()@ == vals@,
                data@.len() == t,
                forall|j: int|
                    0 <= j < t ==> #[trigger] data@[j] == if size <= j < size + n {
                        vals@[j - size]
                    } else {
                        id
                    },
            decreases 2 * size - t,
        {
            if size <= t && t < size + n {
                match v {
                    Some(v) => {
                        data.push(clone_lawful::<S, Op>(Ghost(op), Ghost(id), &v[t - size]));
                    },
                    None => {
                        data.push(clone_lawful::<S, Op>(Ghost(op), Ghost(id), &id));
                    },
                }
            } else {
                data.push(clone_lawful::<S, Op>(Ghost(op), Ghost(id), &id));
            }
            t = t + 1;
        }
        let mut r = SegmentTreeWith { data, id, op, n, size, log };
        let mut i: usize = size;
        while i > 1
            invariant
                1 <= i <= size,
                r.shape(),
                r.size == size,
                r.n == n,
                r.op == op,
                r.id == id,
                forall|j: int| i <= j < size ==> #[trigger] inv_with(r.op, r.data@, j),
                forall|j: int| 0 <= j < n ==> #[trigger] r.data@[size + j] == vals@[j],
            decreases i,
        {
            i = i - 1;
            let ghost d0 = r.data@;
            let v = r.combine(&r.data[2 * i], &r.data[2 * i + 1]);
            r.data.set(i, v);
            proof {
                assert forall|j: int| i <= j < size implies #[trigger] inv_with(r.op, r.data@, j) by {
                    if j != i {
                        assert(inv_with(r.op, d0, j));
                    }
                }
                assert forall|j: int| 0 <= j < n implies #[trigger] r.data@[size + j] == vals@[j] by {
                    assert(d0[size + j] == vals@[j]);
                }
                assert forall|j: int| size + n <= j < 2 * size implies #[trigger] r.data@[j] == id by {
                    assert(d0[j] == id);
                }
            }
        }
        proof {
            assert forall|j: int| 0 <= j < n implies #[trigger] r@[j] == vals@[j] by {
                assert(r.data@[size + j] == vals@[j]);
            }
            assert(r@ =~= vals@);
        }
        r
    }

    /// Sets the element at `i` to `x`.
    pub fn set(&mut self, i: usize, x: S)
        requires
            old(self).wf(),
            i < old(self)@.len(),
        ensures
            final(self).wf(),
            final(self).operation() == old(self).operation(),
            final(self).identity() == old(self).identity(),
            final(self)@ == old(self)@.update(i as int, x),
    {
        let ghost v0 = self@;
        let p = i + self.size;
        let ghost d0 = self.data@;
        self.data.set(p, x);
        proof {
            let d = self.data@;
            let size = self.size as int;
            assert forall|j: int|
                1 <= j < size && !(desc(j, p as int) && j != p) implies #[trigger] inv_with(
                self.op,
                d,
                j,
            ) by {
                assert(inv_with(self.op, d0, j));
                if 2 * j == p || 2 * j + 1 == p {
                    assert(desc(j, j));
                }
            }
            assert forall|j: int| size + self.n <= j < 2 * size implies #[trigger] d[j] == self.id by {
                assert(d0[j] == self.id);
            }
        }
        let ghost l1 = self.data@.subrange(self.size as int, 2 * self.size);
        self.refresh_from(p);
        proof {
            let size = self.size as int;
            assert forall|j: int| 0 <= j < self.n implies #[trigger] self@[j] == v0.update(
                i as int,
                x,
            )[j] by {
                assert(self.data@[size + j] == self.data@.subrange(size, 2 * size)[j]);
                assert(l1[j] == self.data@.subrange(size, 2 * size)[j]);
            }
            assert(self@ =~= v0.update(i as int, x));
        }
    }

    /// Replaces the element at `i` with `op(a[i], x)`.
    pub fn operate(&mut self, i: usize, x: S)
        requires
            old(self).wf(),
            i < old(self)@.len(),
        ensures
            final(self).wf(),
            final(self).operation() == old(self).operation(),
            final(self).identity() == old(self).identity(),
            final(self)@ == old(self)@.update(
                i as int,
                comb(old(self).operation(), old(self)@[i as int], x),
            ),
    {
        let v = self.combine(&self.data[i + self.size], &x);
        self.set(i, v);
    }

    /// Returns the element at `i`.
    pub fn get(&self, i: usize) -> (r: S)
        requires
            self.wf(),
            i < self@.len(),
        ensures
            r == self@[i as int],
    {
        self.clone_elem(&self.data[i + self.size])
    }

    /// Returns `op(a[l], ..., a[r - 1])`, or `id` when `l == r`.
    pub fn range_fold(&self, l: usize, r: usize) -> (res: S)
        requires
            self.wf(),
            l <= r <= self@.len(),
        ensures
            res == fold_with(self.operation(), self.identity(), self@.subrange(l as int, r as int)),
    {
        let ghost d = self.data@;
        let ghost size = self.size as int;
        let ghost lo = size + l;
        let ghost hi = size + r;
        let ghost op = self.op;
        let ghost id = self.id;
        proof {
            assert(self@.subrange(l as int, r as int) =~= d.subrange(lo, hi));
        }
        if l == r {
            proof {
                assert(d.subrange(lo, hi) =~= Seq::<S>::empty());
            }
            return self.clone_elem(&self.id);
        }
        let mut a: usize = l + self.size;
        let mut b: usize = r + self.size;
        let mut left = self.clone_elem(&self.id);
        let mut right = self.clone_elem(&self.id);
        let ghost mut k: nat = 0;
        proof {
            lemma_times_pow2_zero(a as int);
            lemma_times_pow2_zero(b as int);
            assert(d.subrange(lo, lo) =~= Seq::<S>::empty());
            assert(d.subrange(hi, hi) =~= Seq::<S>::empty());
        }
        while a < b
            invariant
                self.wf(),
                d == self.data@,
                op == self.op,
                id == self.id,
                size == self.size,
                lo == size + l,
                hi == size + r,
                hi <= 2 * size,
                1 <= a <= b <= 2 * size,
                pow2(k) >= 1,
                lo <= a * pow2(k) <= b * pow2(k) <= hi,
                left == fold_with(op, id, d.subrange(lo, a * pow2(k))),
                right == fold_with(op, id, d.subrange(b * pow2(k), hi)),
            decreases b - a,
        {
            let ghost p = pow2(k) as int;
            if a % 2 == 1 {
                proof {
                    assert((a + 1) * p <= b * p) by (nonlinear_arith)
                        requires
                            a + 1 <= b,
                            p >= 1,
                    ;
                    assert((a + 1) * p == a * p + p) by (nonlinear_arith);
                    assert(node_at(size, a as int, k));
                    self.lemma_node_fold(a as int, k);
                    assert(d.subrange(lo, (a + 1) * p) =~= d.subrange(lo, a * p) + d.subrange(
                        a * p,
                        (a + 1) * p,
                    ));
                    lemma_fold_with_concat(op, id, d.subrange(lo, a * p), d.subrange(a * p, (a + 1) * p));
                }
                left = self.combine(&left, &self.data[a]);
                a = a + 1;
            }
            if b % 2 == 1 {
                proof {
                    assert((b - 1) * p >= a * p) by (nonlinear_arith)
                        requires
                            a <= b - 1,
                            p >= 1,
                    ;
                    assert((b - 1) * p == b * p - p) by (nonlinear_arith);
                    assert(node_at(size, b - 1, k));
                    self.lemma_node_fold(b - 1, k);
                    assert(d.subrange((b - 1) * p, hi) =~= d.subrange((b - 1) * p, b * p)
                        + d.subrange(b * p, hi));
                    lemma_fold_with_concat(op, id, d.subrange((b - 1) * p, b * p), d.subrange(b * p, hi));
                }
                b = b - 1;
                right = self.combine(&self.data[b], &right);
            }
            proof {
                lemma_pow2_unfold(k + 1);
                assert((a / 2) * (2 * p) == a * p) by (nonlinear_arith)
                    requires
                        a % 2 == 0,
                ;
                assert((b / 2) * (2 * p) == b * p) by (nonlinear_arith)
                    requires
                        b % 2 == 0,
                ;
            }
            a = a / 2;
            b = b / 2;
            proof {
                k = k + 1;
            }
        }
        proof {
            assert(d.subrange(lo, hi) =~= d.subrange(lo, a * pow2(k)) + d.subrange(
                b * pow2(k),
                hi,
            ));
            lemma_fold_with_concat(op, id, d.subrange(lo, a * pow2(k)), d.subrange(b * pow2(k), hi));
        }
        self.combine(&left, &right)
    }

    /// Returns `op(a[0], ..., a[n - 1])`.
    pub fn all_fold(&self) -> (r: S)
        requires
            self.wf(),
        ensures
            r == fold_with(self.operation(), self.identity(), self@),
    {
        proof {
            let d = self.data@;
            let size = self.size as int;
            lemma_pow2_pos(self.log as nat);
            assert(node_at(size, 1, self.log as nat));
            self.lemma_node_fold(1, self.log as nat);
            let pad = d.subrange(size + self.n, 2 * size);
            assert(d.subrange(1 * pow2(self.log as nat) as int, (1 + 1) * pow2(self.log as nat) as int)
                =~= self@ + pad);
            lemma_fold_with_concat(self.op, self.id, self@, pad);
            lemma_fold_with_identities(self.op, self.id, pad);
        }
        self.clone_elem(&self.data[1])
    }

    /// Returns the smallest `r` in `l ..= n` such that `pred(op(a[l], ..., a[r - 1]))`
    /// holds, trying `r = l, l + 1, ...` in turn; returns `n` when no smaller `r`
    /// qualifies. With a monotone `pred` this is the boundary where it turns true.
    pub fn max_right<P: Fn(&S) -> bool>(&self, l: usize, pred: P) -> (r: usize)
        requires
            self.wf(),
            l <= self@.len(),
            forall|s: &S| #[trigger] pred.requires((s,)),
        ensures
            l <= r <= self@.len(),
            forall|t: int|
                l <= t < r ==> #[trigger] pred.ensures((&fold_with(self.operation(), self.identity(), self@.subrange(l as int, t)),), false),
            r < self@.len() ==> pred.ensures((&fold_with(self.operation(), self.identity(), self@.subrange(l as int, r as int)),), true),
    {
        let n = self.len();
        let mut acc = self.clone_elem(&self.id);
        let mut r = l;
        proof {
            assert(self@.subrange(l as int, l as int) =~= Seq::<S>::empty());
        }
        while r < n
            invariant
                self.wf(),
                n == self@.len(),
                l <= r <= n,
                acc == fold_with(self.operation(), self.identity(), self@.subrange(l as int, r as int)),
                forall|s: &S| #[trigger] pred.requires((s,)),
                forall|t: int|
                    l <= t < r ==> #[trigger] pred.ensures((&fold_with(self.operation(), self.identity(), self@.subrange(l as int, t)),), false),
            decreases n - r,
        {
            if pred(&acc) {
                return r;
            }
            let x = self.element(r);
            proof {
                assert(self@.subrange(l as int, r + 1) =~= self@.subrange(l as int, r as int).push(x));
                lemma_fold_with_push(self.op, self.id, self@.subrange(l as int, r as int), x);
            }
            acc = self.combine(&acc, &x);
            r = r + 1;
        }
        r
    }

    /// Returns the largest `l` in `0 ..= r` such that `pred(op(a[l], ..., a[r - 1]))`
    /// holds, trying `l = r, r - 1, ...` in turn; returns `0` when no larger `l`
    /// qualifies. With a monotone `pred` this is the boundary where it turns true.
    pub fn min_left<P: Fn(&S) -> bool>(&self, r: usize, pred: P) -> (l: usize)
        requires
            self.wf(),
            r <= self@.len(),
            forall|s: &S| #[trigger] pred.requires((s,)),
        ensures
            l <= r,
            forall|t: int|
                l < t <= r ==> #[trigger] pred.ensures((&fold_with(self.operation(), self.identity(), self@.subrange(t, r as int)),), false),
            l > 0 ==> pred.ensures((&fold_with(self.operation(), self.identity(), self@.subrange(l as int, r as int)),), true),
    {
        let mut acc = self.clone_elem(&self.id);
        let mut l = r;
        proof {
            assert(self@.subrange(r as int, r as int) =~= Seq::<S>::empty());
        }
        while l > 0
            invariant
                self.wf(),
                l <= r <= self@.len(),
                acc == fold_with(self.operation(), self.identity(), self@.subrange(l as int, r as int)),
                forall|s: &S| #[trigger] pred.requires((s,)),
                forall|t: int|
                    l < t <= r ==> #[trigger] pred.ensures((&fold_with(self.operation(), self.identity(), self@.subrange(t, r as int)),), false),
            decreases l,
        {
            if pred(&acc) {
                return l;
            }
            let x = self.element(l - 1);
            proof {
                assert(self@.subrange(l - 1, r as int) =~= seq![x] + self@.subrange(l as int, r as int));
                lemma_fold_with_prepend(self.op, self.id, x, self@.subrange(l as int, r as int));
            }
            acc = self.combine(&x, &acc);
            l = l - 1;
        }
        0
    }

    fn element(&self, i: usize) -> (r: S)
        requires
            self.wf(),
            i < self@.len(),
        ensures
            r == self@[i as int],
    {
        self.clone_elem(&self.data[i + self.size])
    }

    /// Returns the number of elements.
    pub fn len(&self) -> (r: usize)
        requires
            self.wf(),
        ensures
            r == self@.len(),
    {
        self.n
    }

    /// Returns `true` when the tree holds no element.
    pub fn is_empty(&self) -> (r: bool)
        requires
            self.wf(),
        ensures
            r == (self@.len() == 0),
    {
        self.n == 0
    }
}

} // verus!
