use range_query::lazy_segment_tree::LazySegmentTree;
use range_query::monoids::{Add, SumLen};

struct Lcg(u64);

impl Lcg {
    fn next(&mut self) -> u64 {
        self.0 = self.0.wrapping_mul(6364136223846793005).wrapping_add(1442695040888963407);
        self.0 >> 11
    }
}

fn runs(values: &[u64]) -> Vec<SumLen> {
    values.iter().map(|&x| SumLen::single(x)).collect()
}

fn brute(a: &[u64], l: usize, r: usize) -> SumLen {
    SumLen { sum: a[l..r].iter().fold(0u64, |s, &x| s.wrapping_add(x)), len: (r - l) as u64 }
}

#[test]
fn range_add_scenario() {
    let mut t: LazySegmentTree<SumLen, Add> = LazySegmentTree::from_vec(runs(&[1, 2, 3, 4, 5]));
    assert_eq!(t.range_fold(1, 4).sum, 9);
    assert_eq!(t.all_fold().sum, 15);
    t.range_apply(0, 3, Add(100));
    assert_eq!(t.all_fold(), SumLen { sum: 315, len: 5 });
    assert_eq!(t.range_fold(2, 5).sum, 112);
    assert_eq!(t.get(0).sum, 101);
    assert_eq!(t.get(2).sum, 103);
    assert_eq!(t.get(3).sum, 4);
}

#[test]
fn lazy_point_set_scenario() {
    let mut t: LazySegmentTree<SumLen, Add> = LazySegmentTree::from_slice(&runs(&[1, 2, 3, 4, 5]));
    t.set(2, SumLen::single(10));
    assert_eq!(t.range_fold(1, 4).sum, 16);
    t.operate(0, SumLen { sum: 5, len: 0 });
    assert_eq!(t.get(0), SumLen { sum: 6, len: 1 });
    t.apply(4, Add(10));
    assert_eq!(t.get(4).sum, 15);
    assert_eq!(t.all_fold().sum, 6 + 2 + 10 + 4 + 15);
}

#[test]
fn lazy_empty_tree() {
    let mut t: LazySegmentTree<SumLen, Add> = LazySegmentTree::new(0);
    assert!(t.is_empty());
    assert_eq!(t.len(), 0);
    assert_eq!(t.range_fold(0, 0), SumLen { sum: 0, len: 0 });
    assert_eq!(t.all_fold(), SumLen { sum: 0, len: 0 });
    t.range_apply(0, 0, Add(3));
    assert_eq!(t.all_fold(), SumLen { sum: 0, len: 0 });
    assert_eq!(t.max_right(0, |s: &SumLen| s.sum > 0), 0);
}

#[test]
fn lazy_single_element() {
    let mut t: LazySegmentTree<SumLen, Add> = LazySegmentTree::from_vec(runs(&[7]));
    t.range_apply(0, 1, Add(3));
    assert_eq!(t.get(0), SumLen { sum: 10, len: 1 });
    assert_eq!(t.range_fold(0, 1).sum, 10);
    assert_eq!(t.range_fold(1, 1), SumLen { sum: 0, len: 0 });
}

#[test]
fn lazy_new_is_identity() {
    let t: LazySegmentTree<SumLen, Add> = LazySegmentTree::new(6);
    assert_eq!(t.len(), 6);
    assert_eq!(t.all_fold(), SumLen { sum: 0, len: 0 });
}

#[test]
fn lazy_matches_plain_array() {
    let mut rng = Lcg(7);
    for n in [1usize, 2, 3, 5, 6, 9, 16, 21] {
        let mut a: Vec<u64> = (0..n).map(|_| rng.next() % 1000).collect();
        let mut t: LazySegmentTree<SumLen, Add> = LazySegmentTree::from_vec(runs(&a));
        for _ in 0..300 {
            let i = (rng.next() % n as u64) as usize;
            let x = rng.next() % 1000;
            match rng.next() % 4 {
                0 => {
                    t.set(i, SumLen::single(x));
                    a[i] = x;
                }
                1 => {
                    t.operate(i, SumLen { sum: x, len: 0 });
                    a[i] = a[i].wrapping_add(x);
                }
                2 => {
                    t.apply(i, Add(x));
                    a[i] = a[i].wrapping_add(x);
                }
                _ => {
                    let l = (rng.next() % (n as u64 + 1)) as usize;
                    let r = (rng.next() % (n as u64 + 1)) as usize;
                    let (l, r) = if l <= r { (l, r) } else { (r, l) };
                    t.range_apply(l, r, Add(x));
                    for v in &mut a[l..r] {
                        *v = v.wrapping_add(x);
                    }
                }
            }
            for _ in 0..5 {
                let l = (rng.next() % (n as u64 + 1)) as usize;
                let r = (rng.next() % (n as u64 + 1)) as usize;
                let (l, r) = if l <= r { (l, r) } else { (r, l) };
                assert_eq!(t.range_fold(l, r), brute(&a, l, r));
            }
            assert_eq!(t.all_fold(), brute(&a, 0, n));
            let j = (rng.next() % n as u64) as usize;
            assert_eq!(t.get(j), brute(&a, j, j + 1));
        }
    }
}

#[test]
fn lazy_set_then_get_after_range_apply() {
    let mut t: LazySegmentTree<SumLen, Add> = LazySegmentTree::from_vec(runs(&[1, 2, 3, 4, 5, 6, 7]));
    for i in 0..7 {
        t.range_apply(0, 7, Add(1000));
        t.set(i, SumLen::single(i as u64));
        assert_eq!(t.get(i), SumLen::single(i as u64));
    }
}

#[test]
fn lazy_boundary_searches() {
    let t: LazySegmentTree<SumLen, Add> = LazySegmentTree::from_vec(runs(&[1, 2, 3, 4, 5]));
    assert_eq!(t.max_right(0, |s: &SumLen| s.sum >= 6), 3);
    assert_eq!(t.max_right(0, |s: &SumLen| s.sum >= 100), 5);
    assert_eq!(t.min_left(5, |s: &SumLen| s.sum >= 9), 3);
    assert_eq!(t.min_left(5, |s: &SumLen| s.sum >= 100), 0);
}
