use vstd::prelude::*;

verus! {

/// Follows parent links from `x` for at most `fuel` steps.
pub open spec fn find_fuel(p: Seq<i32>, x: int, fuel: nat) -> int
    decreases fuel,
{
    if fuel == 0 || p[x] < 0 {
        x
    } else {
        find_fuel(p, p[x] as int, (fuel - 1) as nat)
    }
}

/// The number of roots among `0 .. k`.
pub open spec fn root_count(p: Seq<i32>, k: int) -> int
    decreases k,
{
    if k <= 0 {
        0
    } else {
        root_count(p, k - 1) + if p[k - 1] < 0 { 1int } else { 0int }
    }
}

/// The sum of the sizes recorded at the roots among `0 .. k`.
pub open spec fn size_sum(p: Seq<i32>, k: int) -> int
    decreases k,
{
    if k <= 0 {
        0
    } else {
        size_sum(p, k - 1) + if p[k - 1] < 0 { -p[k - 1] } else { 0int }
    }
}

/// The number of positions among `0 .. k` that are their own representative.
pub open spec fn count_fixed(v: Seq<int>, k: int) -> int
    decreases k,
{
    if k <= 0 {
        0
    } else {
        count_fixed(v, k - 1) + if v[k - 1] == k - 1 { 1int } else { 0int }
    }
}

/// The number of positions among `0 .. k` represented by `r`.
pub open spec fn member_count(v: Seq<int>, r: int, k: int) -> int
    decreases k,
{
    if k <= 0 {
        0
    } else {
        member_count(v, r, k - 1) + if v[k - 1] == r { 1int } else { 0int }
    }
}

proof fn lemma_member_count_identity(v: Seq<int>, r: int, k: int)
    requires
        0 <= r,
        k <= v.len(),
        forall|z: int| 0 <= z < v.len() ==> #[trigger] v[z] == z,
    ensures
        member_count(v, r, k) == if r < k { 1int } else { 0int },
    decreases k,
{
    if k > 0 {
        lemma_member_count_identity(v, r, k - 1);
    }
}

proof fn lemma_member_count_merge(v: Seq<int>, w: Seq<int>, rx: int, ry: int, r: int, k: int)
    requires
        k <= v.len(),
        k <= w.len(),
        rx != ry,
        forall|z: int|
            0 <= z < k ==> #[trigger] w[z] == if v[z] == rx || v[z] == ry {
                rx
            } else {
                v[z]
            },
    ensures
        r == rx ==> member_count(w, r, k) == member_count(v, rx, k) + member_count(v, ry, k),
        r != rx && r != ry ==> member_count(w, r, k) == member_count(v, r, k),
    decreases k,
{
    if k > 0 {
        lemma_member_count_merge(v, w, rx, ry, r, k - 1);
    }
}

/// The elements among `0 .. k` represented by `r`, in increasing order.
pub open spec fn members_upto(v: Seq<int>, r: int, k: int) -> Seq<usize>
    decreases k,
{
    if k <= 0 {
        seq![]
    } else {
        members_upto(v, r, k - 1) + if v[k - 1] == r {
            seq![(k - 1) as usize]
        } else {
            seq![]
        }
    }
}

/// The sets whose representatives are among `0 .. k`, ordered by representative,
/// each listing its elements in increasing order.
pub open spec fn groups_upto(v: Seq<int>, k: int) -> Seq<Seq<usize>>
    decreases k,
{
    if k <= 0 {
        seq![]
    } else {
        groups_upto(v, k - 1) + if v[k - 1] == k - 1 {
            seq![members_upto(v, k - 1, v.len() as int)]
        } else {
            seq![]
        }
    }
}

proof fn lemma_members_nonempty(v: Seq<int>, r: int, k: int)
    ensures
        0 <= r < k && v[r] == r ==> members_upto(v, r, k).len() > 0,
        members_upto(v, r, k).len() > 0 ==> exists|z: int| 0 <= z < k && v[z] == r,
    decreases k,
{
    if k > 0 {
        lemma_members_nonempty(v, r, k - 1);
    }
}

proof fn lemma_count_update(p: Seq<i32>, i: int, v: i32, k: int)
    requires
        0 <= i < p.len(),
        k <= p.len(),
    ensures
        root_count(p.update(i, v), k) == root_count(p, k) + if i < k {
            (if v < 0 { 1int } else { 0int }) - (if p[i] < 0 { 1int } else { 0int })
        } else {
            0int
        },
        size_sum(p.update(i, v), k) == size_sum(p, k) + if i < k {
            (if v < 0 { -v } else { 0int }) - (if p[i] < 0 { -p[i] } else { 0int })
        } else {
            0int
        },
    decreases k,
{
    if k > 0 {
        lemma_count_update(p, i, v, k - 1);
    }
}

/// The sizes at two distinct roots add up to no more than the sum over all roots.
proof fn lemma_two_roots(p: Seq<i32>, a: int, b: int, k: int)
    requires
        0 <= a < k,
        0 <= b < k,
        a != b,
        k <= p.len(),
        p[a] < 0,
        p[b] < 0,
    ensures
        size_sum(p, k) >= -p[a] - p[b],
    decreases k,
{
    lemma_size_sum_nonneg(p, k - 1);
    if a < k - 1 && b < k - 1 {
        lemma_two_roots(p, a, b, k - 1);
    } else if a == k - 1 {
        lemma_one_root(p, b, k - 1);
    } else {
        lemma_one_root(p, a, k - 1);
    }
}

proof fn lemma_one_root(p: Seq<i32>, a: int, k: int)
    requires
        0 <= a < k,
        k <= p.len(),
        p[a] < 0,
    ensures
        size_sum(p, k) >= -p[a],
    decreases k,
{
    lemma_size_sum_nonneg(p, k - 1);
    if a < k - 1 {
        lemma_one_root(p, a, k - 1);
    }
}

proof fn lemma_root_count_pos(p: Seq<i32>, a: int, k: int)
    requires
        0 <= a < k,
        p[a] < 0,
    ensures
        root_count(p, k) >= 1,
    decreases k,
{
    if a < k - 1 {
        lemma_root_count_pos(p, a, k - 1);
    } else {
        lemma_root_count_nonneg(p, k - 1);
    }
}

proof fn lemma_root_count_nonneg(p: Seq<i32>, k: int)
    ensures
        root_count(p, k) >= 0,
    decreases k,
{
    if k > 0 {
        lemma_root_count_nonneg(p, k - 1);
    }
}

proof fn lemma_size_sum_nonneg(p: Seq<i32>, k: int)
    ensures
        size_sum(p, k) >= 0,
    decreases k,
{
    if k > 0 {
        lemma_size_sum_nonneg(p, k - 1);
    }
}

/// A disjoint-set union (union-find) over the elements `0 .. n`.
///
/// `parent[x]` is negative at a root, where it is minus the size of the set, and
/// otherwise the parent of `x`. Finding a root halves the path; uniting hangs
/// the smaller set under the larger one.
pub struct Dsu {
    parent: Vec<i32>,
    num_components: usize,
    rank: Ghost<Seq<nat>>,
}

impl View for Dsu {
    type V = Seq<int>;

    /// The representative of each element's set.
    closed spec fn view(&self) -> Seq<int> {
        Seq::new(self.parent@.len(), |x: int| self.find(x))
    }
}

impl Dsu {
    spec fn find(&self, x: int) -> int {
        find_fuel(self.parent@, x, (self.parent@.len() + 1) as nat)
    }

    /// The tree's internal invariant.
    pub closed spec fn wf(&self) -> bool {
        &&& self.forest()
        &&& forall|r: int|
            0 <= r < self.parent@.len() && #[trigger] self.parent@[r] < 0 ==> -self.parent@[r]
                == member_count(self@, r, self.parent@.len() as int)
    }

    /// The parent links form a forest whose ranks grow towards the roots, with the
    /// recorded sizes and component count in step.
    spec fn forest(&self) -> bool {
        let p = self.parent@;
        let n = p.len();
        let rk = self.rank@;
        &&& n < 0x8000_0000
        &&& rk.len() == n
        &&& forall|x: int| 0 <= x < n ==> #[trigger] rk[x] + self.num_components <= n
        &&& forall|x: int|
            0 <= x < n && #[trigger] p[x] >= 0 ==> p[x] < n && rk[p[x] as int] > rk[x]
        &&& size_sum(p, n as int) == n
        &&& self.num_components == root_count(p, n as int)
    }

    /// `find_fuel` settles on a root once the fuel covers the ranks above `x`.
    proof fn lemma_find(&self, x: int, f: nat, g: nat)
        requires
            self.forest(),
            0 <= x < self.parent@.len(),
            f + self.rank@[x] >= self.parent@.len() + 1,
            g + self.rank@[x] >= self.parent@.len() + 1,
        ensures
            find_fuel(self.parent@, x, f) == find_fuel(self.parent@, x, g),
            0 <= find_fuel(self.parent@, x, f) < self.parent@.len(),
            self.parent@[find_fuel(self.parent@, x, f)] < 0,
            self.parent@[x] >= 0 ==> find_fuel(self.parent@, x, f) != x,
            self.parent@[x] >= 0 ==> self.rank@[find_fuel(self.parent@, x, f)] > self.rank@[x],
        decreases f,
    {
        let p = self.parent@;
        if p[x] >= 0 {
            assert(self.rank@[x] + self.num_components <= p.len());
            let px = p[x] as int;
            assert(self.rank@[px] > self.rank@[x]);
            self.lemma_find(px, (f - 1) as nat, (g - 1) as nat);
        }
    }

    /// Creates `n` singleton sets.
    pub fn new(n: usize) -> (r: Self)
        requires
            n < 0x8000_0000,
        ensures
            r.wf(),
            r@ == Seq::new(n as nat, |x: int| x),
            count_fixed(r@, n as int) == n,
    {
        let mut parent: Vec<i32> = Vec::new();
        let mut t: usize = 0;
        while t < n
            invariant
                t <= n,
                n < 0x8000_0000,
                parent@.len() == t,
                forall|j: int| 0 <= j < t ==> #[trigger] parent@[j] == -1,
                root_count(parent@, t as int) == t,
                size_sum(parent@, t as int) == t,
            decreases n - t,
        {
            let ghost p0 = parent@;
            parent.push(-1);
            proof {
                assert forall|k: int| 0 <= k <= t implies root_count(parent@, k) == root_count(p0, k)
                    && size_sum(parent@, k) == size_sum(p0, k) by {
                    lemma_prefix_same(p0, parent@, k);
                }
            }
            t = t + 1;
        }
        let r = Dsu { parent, num_components: n, rank: Ghost(Seq::new(n as nat, |x: int| 0nat)) };
        proof {
            assert forall|x: int| 0 <= x < n implies #[trigger] r@[x] == x by {
                assert(r.parent@[x] < 0);
            }
            assert(r@ =~= Seq::new(n as nat, |x: int| x));
            assert forall|q: int| 0 <= q < n && #[trigger] r.parent@[q] < 0 implies -r.parent@[q]
                == member_count(r@, q, n as int) by {
                lemma_member_count_identity(r@, q, n as int);
            }
            r.lemma_count_fixed(n as int);
        }
        r
    }

    /// The roots are exactly the elements that represent themselves.
    proof fn lemma_count_fixed(&self, k: int)
        requires
            self.forest(),
            0 <= k <= self.parent@.len(),
        ensures
            count_fixed(self@, k) == root_count(self.parent@, k),
        decreases k,
    {
        if k > 0 {
            self.lemma_count_fixed(k - 1);
            let n = self.parent@.len();
            self.lemma_find(k - 1, (n + 1) as nat, (n + 1) as nat);
        }
    }
}

impl Dsu {
    /// Hanging `x` on its grandparent changes no representative.
    proof fn lemma_halve(old_d: &Dsu, new_d: &Dsu, x: int, y: int, f: nat)
        requires
            old_d.forest(),
            new_d.forest(),
            new_d.rank@ == old_d.rank@,
            0 <= x < old_d.parent@.len(),
            old_d.parent@[x] >= 0,
            old_d.parent@[old_d.parent@[x] as int] >= 0,
            new_d.parent@ == old_d.parent@.update(x, old_d.parent@[old_d.parent@[x] as int]),
            0 <= y < old_d.parent@.len(),
            f + old_d.rank@[y] >= old_d.parent@.len() + 1,
        ensures
            find_fuel(new_d.parent@, y, f) == find_fuel(old_d.parent@, y, f),
        decreases f,
    {
        let p = old_d.parent@;
        let q = new_d.parent@;
        let n = p.len();
        assert(old_d.rank@[y] + old_d.num_components <= n);
        if q[y] >= 0 {
            if y == x {
                let px = p[x] as int;
                let g = p[px] as int;
                assert(old_d.rank@[px] > old_d.rank@[x]);
                assert(old_d.rank@[g] > old_d.rank@[px]);
                assert(old_d.rank@[g] + old_d.num_components <= n);
                Self::lemma_halve(old_d, new_d, x, g, (f - 1) as nat);
                old_d.lemma_find(g, (f - 1) as nat, (f - 2) as nat);
                assert(find_fuel(p, x, f) == find_fuel(p, px, (f - 1) as nat));
                assert(find_fuel(p, px, (f - 1) as nat) == find_fuel(p, g, (f - 2) as nat));
                assert(find_fuel(q, x, f) == find_fuel(q, g, (f - 1) as nat));
            } else {
                let py = p[y] as int;
                assert(q[y] == p[y]);
                assert(old_d.rank@[py] > old_d.rank@[y]);
                Self::lemma_halve(old_d, new_d, x, py, (f - 1) as nat);
                assert(find_fuel(q, y, f) == find_fuel(q, py, (f - 1) as nat));
                assert(find_fuel(p, y, f) == find_fuel(p, py, (f - 1) as nat));
            }
        }
    }

    /// Returns the representative of the set of `x`, halving the path to it.
    pub fn root(&mut self, x: usize) -> (r: usize)
        requires
            old(self).wf(),
            x < old(self)@.len(),
        ensures
            final(self).wf(),
            final(self)@ == old(self)@,
            r == old(self)@[x as int],
            r < old(self)@.len(),
    {
        let ghost n = self.parent@.len();
        let ghost x0 = x as int;
        let mut x = x;
        proof {
            self.lemma_find(x0, (n + 1) as nat, (n + 1) as nat);
        }
        while self.parent[x] >= 0
            invariant
                self.wf(),
                self.parent@.len() == n,
                self@ == old(self)@,
                0 <= x < n,
                self.find(x as int) == old(self)@[x0],
            decreases n - self.rank@[x as int],
        {
            let px = self.parent[x] as usize;
            proof {
                assert(self.rank@[px as int] > self.rank@[x as int]);
                assert(self.rank@[px as int] + self.num_components <= n);
                self.lemma_find(px as int, n as nat, (n + 1) as nat);
                assert(find_fuel(self.parent@, x as int, (n + 1) as nat) == find_fuel(
                    self.parent@,
                    px as int,
                    n as nat,
                ));
                assert(self.find(px as int) == old(self)@[x0]);
            }
            if self.parent[px] >= 0 {
                let g = self.parent[px];
                let ghost before = *self;
                self.parent.set(x, g);
                proof {
                    let p = before.parent@;
                    lemma_count_update(p, x as int, g, n as int);
                    assert forall|z: int| 0 <= z < n && #[trigger] self.parent@[z] >= 0 implies self.parent@[z]
                        < n && self.rank@[self.parent@[z] as int] > self.rank@[z] by {
                        if z == x {
                            assert(p[px as int] >= 0);
                        } else {
                            assert(p[z] >= 0);
                        }
                    }
                    assert forall|z: int| 0 <= z < n implies #[trigger] self@[z] == before@[z] by {
                        Self::lemma_halve(&before, &*self, x as int, z, (n + 1) as nat);
                    }
                    assert(self@ =~= before@);
                    assert(self@[px as int] == before@[px as int]);
                    assert forall|r: int| 0 <= r < n && #[trigger] self.parent@[r] < 0 implies -self.parent@[r]
                        == member_count(self@, r, n as int) by {
                        assert(p[r] < 0);
                    }
                }
            }
            x = px;
        }
        proof {
            self.lemma_find(x as int, (n + 1) as nat, (n + 1) as nat);
        }
        x
    }

    /// Returns `true` when `x` represents its own set.
    pub fn is_root(&self, x: usize) -> (r: bool)
        requires
            self.wf(),
            x < self@.len(),
        ensures
            r == (self@[x as int] == x),
    {
        proof {
            let n = self.parent@.len();
            self.lemma_find(x as int, (n + 1) as nat, (n + 1) as nat);
        }
        self.parent[x] < 0
    }

    /// Returns `true` when `x` and `y` are in the same set.
    pub fn same(&mut self, x: usize, y: usize) -> (r: bool)
        requires
            old(self).wf(),
            x < old(self)@.len(),
            y < old(self)@.len(),
        ensures
            final(self).wf(),
            final(self)@ == old(self)@,
            r == (old(self)@[x as int] == old(self)@[y as int]),
    {
        let a = self.root(x);
        let b = self.root(y);
        a == b
    }

    /// After uniting the roots `rx` and `ry`, the set of `ry` joins that of `rx`.
    proof fn lemma_unite(old_d: &Dsu, new_d: &Dsu, rx: int, ry: int, y: int, f: nat)
        requires
            old_d.forest(),
            0 <= rx < old_d.parent@.len(),
            0 <= ry < old_d.parent@.len(),
            rx != ry,
            old_d.parent@[rx] < 0,
            old_d.parent@[ry] < 0,
            new_d.parent@.len() == old_d.parent@.len(),
            new_d.parent@[rx] < 0,
            new_d.parent@[ry] == rx,
            forall|z: int| 0 <= z < old_d.parent@.len() && z != rx && z != ry ==> new_d.parent@[z] == old_d.parent@[z],
            0 <= y < old_d.parent@.len(),
            f + old_d.rank@[y] >= old_d.parent@.len() + 2,
        ensures
            find_fuel(new_d.parent@, y, f) == if find_fuel(old_d.parent@, y, (f - 1) as nat) == ry {
                rx
            } else {
                find_fuel(old_d.parent@, y, (f - 1) as nat)
            },
        decreases f,
    {
        let p = old_d.parent@;
        let n = p.len();
        assert(old_d.rank@[y] + old_d.num_components <= n);
        if p[y] >= 0 {
            let py = p[y] as int;
            assert(old_d.rank@[py] > old_d.rank@[y]);
            Self::lemma_unite(old_d, new_d, rx, ry, py, (f - 1) as nat);
        } else if y == ry {
            assert(find_fuel(new_d.parent@, rx, (f - 1) as nat) == rx);
        }
    }

    /// Unites the sets of `x` and `y`; returns `true` when they were different sets.
    pub fn unite(&mut self, x: usize, y: usize) -> (r: bool)
        requires
            old(self).wf(),
            x < old(self)@.len(),
            y < old(self)@.len(),
        ensures
            final(self).wf(),
            r == (old(self)@[x as int] != old(self)@[y as int]),
            final(self)@.len() == old(self)@.len(),
            final(self)@[x as int] == old(self)@[x as int] || final(self)@[x as int] == old(self)@[y as int],
            forall|z: int|
                0 <= z < old(self)@.len() ==> #[trigger] final(self)@[z] == if old(self)@[z] == old(self)@[x as int]
                    || old(self)@[z] == old(self)@[y as int] {
                    final(self)@[x as int]
                } else {
                    old(self)@[z]
                },
    {
        let ghost n = self.parent@.len();
        let ghost v0 = self@;
        let a = self.root(x);
        let b = self.root(y);
        if a == b {
            return false;
        }
        let (rx, ry) = if self.parent[a] > self.parent[b] {
            (b, a)
        } else {
            (a, b)
        };
        let ghost before = *self;
        proof {
            self.lemma_find(x as int, (n + 1) as nat, (n + 1) as nat);
            self.lemma_find(y as int, (n + 1) as nat, (n + 1) as nat);
            self.lemma_find(rx as int, (n + 1) as nat, (n + 1) as nat);
            self.lemma_find(ry as int, (n + 1) as nat, (n + 1) as nat);
            lemma_two_roots(self.parent@, rx as int, ry as int, n as int);
            lemma_root_count_pos(self.parent@, rx as int, n as int);
        }
        let s = self.parent[rx] + self.parent[ry];
        self.parent.set(rx, s);
        self.parent.set(ry, rx as i32);
        self.num_components = self.num_components - 1;
        proof {
            let p = before.parent@;
            let rk = before.rank@;
            let new_rank = if rk[rx as int] > rk[ry as int] { rk[rx as int] } else { rk[ry as int] + 1 };
            self.rank@ = rk.update(rx as int, new_rank);
            lemma_count_update(p, rx as int, s, n as int);
            lemma_count_update(p.update(rx as int, s), ry as int, rx as i32, n as int);
            assert(self.parent@ == p.update(rx as int, s).update(ry as int, rx as i32));
            assert forall|z: int| 0 <= z < n implies #[trigger] self.rank@[z] + self.num_components <= n by {
                assert(rk[z] + before.num_components <= n);
                assert(rk[ry as int] + before.num_components <= n);
            }
            assert forall|z: int| 0 <= z < n && #[trigger] self.parent@[z] >= 0 implies self.parent@[z]
                < n && self.rank@[self.parent@[z] as int] > self.rank@[z] by {
                if z != ry {
                    assert(p[z] >= 0);
                }
            }
            assert forall|z: int| 0 <= z < n implies #[trigger] self@[z] == if v0[z] == v0[x as int]
                || v0[z] == v0[y as int] {
                rx as int
            } else {
                v0[z]
            } by {
                Self::lemma_unite(&before, &*self, rx as int, ry as int, z, (n + 2) as nat);
                before.lemma_find(z, (n + 1) as nat, (n + 1) as nat);
                self.lemma_find(z, (n + 2) as nat, (n + 1) as nat);
            }
            Self::lemma_unite(&before, &*self, rx as int, ry as int, x as int, (n + 2) as nat);
            self.lemma_find(x as int, (n + 2) as nat, (n + 1) as nat);
            assert(v0[x as int] == rx || v0[x as int] == ry);
            assert(v0[y as int] == rx || v0[y as int] == ry);
            assert forall|z: int| 0 <= z < n implies #[trigger] self@[z] == if v0[z] == rx || v0[z] == ry {
                rx as int
            } else {
                v0[z]
            } by {
            }
            assert forall|r: int| 0 <= r < n && #[trigger] self.parent@[r] < 0 implies -self.parent@[r]
                == member_count(self@, r, n as int) by {
                lemma_member_count_merge(v0, self@, rx as int, ry as int, r, n as int);
                lemma_member_count_merge(v0, self@, rx as int, ry as int, rx as int, n as int);
                assert(p[rx as int] < 0 && p[ry as int] < 0);
                if r != rx {
                    assert(p[r] < 0);
                }
            }
        }
        true
    }

    /// Returns the number of elements in the set of `x`.
    pub fn size(&mut self, x: usize) -> (r: usize)
        requires
            old(self).wf(),
            x < old(self)@.len(),
        ensures
            final(self).wf(),
            final(self)@ == old(self)@,
            r == member_count(old(self)@, old(self)@[x as int], old(self)@.len() as int),
    {
        let root = self.root(x);
        proof {
            let n = self.parent@.len();
            self.lemma_find(x as int, (n + 1) as nat, (n + 1) as nat);
            lemma_one_root(self.parent@, root as int, n as int);
        }
        (-self.parent[root]) as usize
    }

    /// Returns every set, ordered by representative, each with its elements in
    /// increasing order.
    pub fn groups(&mut self) -> (r: Vec<Vec<usize>>)
        requires
            old(self).wf(),
        ensures
            final(self).wf(),
            final(self)@ == old(self)@,
            r@.len() == groups_upto(old(self)@, old(self)@.len() as int).len(),
            forall|j: int|
                0 <= j < r@.len() ==> #[trigger] r@[j]@ == groups_upto(
                    old(self)@,
                    old(self)@.len() as int,
                )[j],
    {
        let n = self.parent.len();
        let ghost v = self@;
        let mut buckets: Vec<Vec<usize>> = Vec::new();
        let mut t: usize = 0;
        while t < n
            invariant
                t <= n,
                buckets@.len() == t,
                forall|q: int| 0 <= q < t ==> #[trigger] buckets@[q]@ == members_upto(v, q, 0),
            decreases n - t,
        {
            buckets.push(Vec::new());
            t = t + 1;
        }
        let mut i: usize = 0;
        while i < n
            invariant
                i <= n,
                n == self.parent@.len(),
                self.wf(),
                self@ == v,
                v.len() == n,
                buckets@.len() == n,
                forall|q: int| 0 <= q < n ==> #[trigger] buckets@[q]@ == members_upto(v, q, i as int),
            decreases n - i,
        {
            let r = self.root(i);
            let mut b: Vec<usize> = Vec::new();
            buckets.set_and_swap(r, &mut b);
            b.push(i);
            buckets.set_and_swap(r, &mut b);
            proof {
                assert forall|q: int| 0 <= q < n implies #[trigger] buckets@[q]@ == members_upto(
                    v,
                    q,
                    i + 1,
                ) by {
                    if q == r {
                        assert(members_upto(v, q, i + 1) =~= members_upto(v, q, i as int).push(i));
                    } else {
                        assert(members_upto(v, q, i + 1) =~= members_upto(v, q, i as int));
                    }
                }
            }
            i = i + 1;
        }
        let mut out: Vec<Vec<usize>> = Vec::new();
        let mut r: usize = 0;
        while r < n
            invariant
                r <= n,
                n == self.parent@.len(),
                self.wf(),
                self@ == v,
                v.len() == n,
                buckets@.len() == n,
                forall|q: int| r <= q < n ==> #[trigger] buckets@[q]@ == members_upto(v, q, n as int),
                out@.len() == groups_upto(v, r as int).len(),
                forall|j: int| 0 <= j < out@.len() ==> #[trigger] out@[j]@ == groups_upto(v, r as int)[j],
            decreases n - r,
        {
            proof {
                lemma_members_nonempty(v, r as int, n as int);
                let nn = n as int;
                if members_upto(v, r as int, nn).len() > 0 {
                    let z = choose|z: int| 0 <= z < nn && v[z] == r;
                    self.lemma_find(z, (nn + 1) as nat, (nn + 1) as nat);
                    self.lemma_find(r as int, (nn + 1) as nat, (nn + 1) as nat);
                }
            }
            if buckets[r].len() > 0 {
                let mut b: Vec<usize> = Vec::new();
                buckets.set_and_swap(r, &mut b);
                out.push(b);
                proof {
                    assert forall|q: int| r < q < n implies #[trigger] buckets@[q]@ == members_upto(
                        v,
                        q,
                        n as int,
                    ) by {}
                }
            }
            proof {
                assert forall|j: int| 0 <= j < out@.len() implies #[trigger] out@[j]@ == groups_upto(
                    v,
                    r + 1,
                )[j] by {}
            }
            r = r + 1;
        }
        out
    }

    /// Returns the number of sets.
    pub fn num_components(&self) -> (r: usize)
        requires
            self.wf(),
        ensures
            r == count_fixed(self@, self@.len() as int),
    {
        proof {
            self.lemma_count_fixed(self.parent@.len() as int);
        }
        self.num_components
    }

    /// Returns the number of elements.
    pub fn len(&self) -> (r: usize)
        requires
            self.wf(),
        ensures
            r == self@.len(),
    {
        self.parent.len()
    }

    /// Returns `true` when there is no element.
    pub fn is_empty(&self) -> (r: bool)
        requires
            self.wf(),
        ensures
            r == (self@.len() == 0),
    {
        self.parent.len() == 0
    }
}

proof fn lemma_prefix_same(p: Seq<i32>, q: Seq<i32>, k: int)
    requires
        0 <= k <= p.len(),
        k <= q.len(),
        forall|j: int| 0 <= j < k ==> p[j] == q[j],
    ensures
        root_count(p, k) == root_count(q, k),
        size_sum(p, k) == size_sum(q, k),
    decreases k,
{
    if k > 0 {
        lemma_prefix_same(p, q, k - 1);
    }
}

} // verus!
