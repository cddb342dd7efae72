use vstd::prelude::*;
use vstd::arithmetic::power2::{pow2, lemma_pow2_unfold, lemma_pow2_pos, lemma2_to64};

verus! {

/// Node `c` is `j` or an ancestor of `j` in the 1-indexed implicit binary tree.
pub open spec fn desc(c: int, j: int) -> bool
    decreases j,
{
    j == c || (j > 1 && desc(c, j / 2))
}

pub proof fn lemma_desc_le(c: int, j: int)
    requires
        desc(c, j),
    ensures
        c <= j,
    decreases j,
{
    if j != c {
        lemma_desc_le(c, j / 2);
    }
}

pub proof fn lemma_desc_trans(a: int, b: int, c: int)
    requires
        desc(a, b),
        desc(b, c),
    ensures
        desc(a, c),
    decreases c,
{
    if c != b {
        lemma_desc_trans(a, b, c / 2);
    }
}

/// Two ancestors of one node are ancestors of each other.
pub proof fn lemma_desc_order(a: int, b: int, j: int)
    requires
        desc(a, j),
        desc(b, j),
        a <= b,
    ensures
        desc(a, b),
    decreases j,
{
    if j != b {
        lemma_desc_le(b, j / 2);
        if j == a {
            lemma_desc_le(b, j / 2);
        } else {
            lemma_desc_order(a, b, j / 2);
        }
    }
}

/// The subtrees of the two children of a node do not meet.
pub proof fn lemma_children_disjoint(c: int, j: int)
    requires
        c >= 1,
        desc(2 * c, j),
    ensures
        !desc(2 * c + 1, j),
        j != c,
        desc(c, j),
{
    lemma_desc_le(2 * c, j);
    if desc(2 * c + 1, j) {
        lemma_desc_order(2 * c, 2 * c + 1, j);
        assert((2 * c + 1) / 2 == c);
        lemma_desc_le(2 * c, c);
    }
    assert(desc(c, 2 * c)) by {
        assert((2 * c) / 2 == c);
        assert(desc(c, c));
    }
    lemma_desc_trans(c, 2 * c, j);
}

pub proof fn lemma_right_child_desc(c: int, j: int)
    requires
        c >= 1,
        desc(2 * c + 1, j),
    ensures
        !desc(2 * c, j),
        j != c,
        desc(c, j),
{
    lemma_desc_le(2 * c + 1, j);
    if desc(2 * c, j) {
        lemma_children_disjoint(c, j);
    }
    assert(desc(c, 2 * c + 1)) by {
        assert((2 * c + 1) / 2 == c);
        assert(desc(c, c));
    }
    lemma_desc_trans(c, 2 * c + 1, j);
}

/// A strict descendant of `c` lies under one of its children.
pub proof fn lemma_desc_split(c: int, j: int)
    requires
        c >= 1,
        desc(c, j),
        j != c,
    ensures
        desc(2 * c, j) || desc(2 * c + 1, j),
    decreases j,
{
    if j / 2 != c {
        lemma_desc_split(c, j / 2);
        if desc(2 * c, j / 2) {
            assert(desc(2 * c, j));
        } else {
            assert(desc(2 * c + 1, j));
        }
    }
}

/// Node `c` has height `k`: the leaves under it are `c * 2^k .. (c + 1) * 2^k`,
/// all within the leaf level `size .. 2 * size`.
pub open spec fn node_at(size: int, c: int, k: nat) -> bool {
    1 <= c && size <= c * pow2(k) && (c + 1) * pow2(k) <= 2 * size
}

pub proof fn lemma_pow2_zero()
    ensures
        pow2(0) == 1,
{
    lemma2_to64();
}

pub proof fn lemma_times_pow2_zero(x: int)
    ensures
        x * pow2(0) == x,
        pow2(0) == 1,
{
    lemma_pow2_zero();
    let p = pow2(0) as int;
    assert(x * p == x) by (nonlinear_arith)
        requires
            p == 1,
    ;
}

pub proof fn lemma_leaf_node(size: int, c: int)
    requires
        node_at(size, c, 0),
    ensures
        size <= c < 2 * size,
{
    lemma_pow2_zero();
}

/// The children of a node of height `k >= 1` are nodes of height `k - 1`,
/// and the node itself is internal.
pub proof fn lemma_node_children(size: int, c: int, k: nat)
    requires
        node_at(size, c, k),
        k >= 1,
    ensures
        node_at(size, 2 * c, (k - 1) as nat),
        node_at(size, 2 * c + 1, (k - 1) as nat),
        1 <= c < size,
        pow2(k) == 2 * pow2((k - 1) as nat),
        c * pow2(k) == 2 * c * pow2((k - 1) as nat),
        (2 * c + 1) * pow2((k - 1) as nat) == c * pow2(k) + pow2((k - 1) as nat),
        (c + 1) * pow2(k) == (2 * c + 2) * pow2((k - 1) as nat),
        (c + 1) * pow2(k) == c * pow2(k) + 2 * pow2((k - 1) as nat),
        pow2((k - 1) as nat) >= 1,
{
    let h = pow2((k - 1) as nat) as int;
    lemma_pow2_unfold(k);
    lemma_pow2_pos((k - 1) as nat);
    assert(c * (2 * h) == 2 * c * h) by (nonlinear_arith);
    assert((2 * c + 1) * h == c * (2 * h) + h) by (nonlinear_arith);
    assert((c + 1) * (2 * h) == (2 * c + 2) * h) by (nonlinear_arith);
    assert((2 * c + 2) * h == 2 * c * h + 2 * h) by (nonlinear_arith);
    assert((c + 1) * (2 * h) == c * (2 * h) + 2 * h) by (nonlinear_arith);
    assert((c + 1) * (2 * h) >= (c + 1) * 2) by (nonlinear_arith)
        requires
            h >= 1,
            c >= 1,
    ;
}

/// The smallest power of two that is at least `n` (and at least 1), with its exponent.
pub fn capacity(n: usize) -> (r: (usize, usize))
    requires
        n <= usize::MAX / 4,
    ensures
        r.0 == pow2(r.1 as nat),
        r.0 >= 1,
        n <= r.0,
        r.0 == 1 || r.0 < 2 * n,
        2 * r.0 <= usize::MAX,
{
    let mut size: usize = 1;
    let mut log: usize = 0;
    proof {
        lemma_pow2_zero();
    }
    while size < n
        invariant
            size == pow2(log as nat),
            size >= 1,
            size == 1 || size < 2 * n,
            n <= usize::MAX / 4,
            log <= size,
            size <= 2 * n + 1,
        decreases 2 * n + 2 - size,
    {
        proof {
            lemma_pow2_unfold((log + 1) as nat);
        }
        size = size * 2;
        log = log + 1;
    }
    (size, log)
}

} // verus!
