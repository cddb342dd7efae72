use range_query::monoids::{LexMin, Max, Min, Sum};
use range_query::segment_tree::SegmentTree;

struct Lcg(u64);

impl Lcg {
    fn next(&mut self) -> u64 {
        self.0 = self.0.wrapping_mul(6364136223846793005).wrapping_add(1442695040888963407);
        self.0 >> 11
    }
}

fn brute_sum(a: &[u64], l: usize, r: usize) -> Sum {
    Sum(a[l..r].iter().fold(0u64, |s, &x| s.wrapping_add(x)))
}

#[test]
fn sum_scenario() {
    let mut t = SegmentTree::from_vec(vec![Sum(1), Sum(2), Sum(3), Sum(4), Sum(5)]);
    assert_eq!(t.range_fold(1, 4), Sum(9));
    assert_eq!(t.all_fold(), Sum(15));
    t.set(2, Sum(10));
    assert_eq!(t.range_fold(1, 4), Sum(16));
    assert_eq!(t.get(2), Sum(10));
    assert_eq!(t.all_fold(), Sum(22));
}

#[test]
fn empty_tree() {
    let t: SegmentTree<Sum> = SegmentTree::new(0);
    assert_eq!(t.len(), 0);
    assert!(t.is_empty());
    assert_eq!(t.range_fold(0, 0), Sum(0));
    assert_eq!(t.all_fold(), Sum(0));
    assert_eq!(t.max_right(0, |s: &Sum| s.0 >= 1), 0);
    assert_eq!(t.min_left(0, |s: &Sum| s.0 >= 1), 0);
}

#[test]
fn single_element() {
    let mut t: SegmentTree<Min> = SegmentTree::new(1);
    assert_eq!(t.all_fold(), Min(u64::MAX));
    t.set(0, Min(4));
    assert_eq!(t.get(0), Min(4));
    assert_eq!(t.range_fold(0, 1), Min(4));
    assert_eq!(t.range_fold(1, 1), Min(u64::MAX));
    t.operate(0, Min(2));
    assert_eq!(t.all_fold(), Min(2));
}

#[test]
fn padding_does_not_show() {
    let t = SegmentTree::from_slice(&[Max(3), Max(1), Max(2)]);
    assert_eq!(t.len(), 3);
    assert!(!t.is_empty());
    assert_eq!(t.all_fold(), Max(3));
    assert_eq!(t.range_fold(1, 3), Max(2));
    let t = SegmentTree::from_slice(&[Min(3), Min(1), Min(2)]);
    assert_eq!(t.all_fold(), Min(1));
    assert_eq!(t.range_fold(2, 3), Min(2));
}

#[test]
fn order_is_kept_for_non_commutative_combine() {
    let t = SegmentTree::from_vec(vec![LexMin(2, 1), LexMin(1, 5), LexMin(1, 3), LexMin(4, 0)]);
    assert_eq!(t.all_fold(), LexMin(1, 3));
    assert_eq!(t.range_fold(0, 2), LexMin(1, 5));
    assert_eq!(t.range_fold(3, 4), LexMin(4, 0));
}

#[test]
fn matches_plain_array() {
    let mut rng = Lcg(42);
    for n in [1usize, 2, 3, 5, 8, 13, 17] {
        let mut a: Vec<u64> = (0..n).map(|_| rng.next() % 1000).collect();
        let mut t = SegmentTree::from_vec(a.iter().map(|&x| Sum(x)).collect());
        for _ in 0..200 {
            let i = (rng.next() % n as u64) as usize;
            let x = rng.next() % 1000;
            if rng.next() % 2 == 0 {
                t.set(i, Sum(x));
                a[i] = x;
            } else {
                t.operate(i, Sum(x));
                a[i] = a[i].wrapping_add(x);
            }
            for _ in 0..5 {
                let l = (rng.next() % (n as u64 + 1)) as usize;
                let r = (rng.next() % (n as u64 + 1)) as usize;
                let (l, r) = if l <= r { (l, r) } else { (r, l) };
                assert_eq!(t.range_fold(l, r), brute_sum(&a, l, r));
            }
            assert_eq!(t.range_fold(0, n), brute_sum(&a, 0, n));
            assert_eq!(t.all_fold(), brute_sum(&a, 0, n));
        }
    }
}

#[test]
fn set_then_get_round_trip() {
    let mut t: SegmentTree<Sum> = SegmentTree::new(7);
    for i in 0..7 {
        t.set(i, Sum(100 + i as u64));
        assert_eq!(t.get(i), Sum(100 + i as u64));
    }
}

#[test]
fn boundary_searches() {
    let t = SegmentTree::from_vec(vec![Sum(1), Sum(2), Sum(3), Sum(4), Sum(5)]);
    assert_eq!(t.max_right(0, |s: &Sum| s.0 >= 6), 3);
    assert_eq!(t.max_right(1, |s: &Sum| s.0 >= 5), 3);
    assert_eq!(t.max_right(0, |s: &Sum| s.0 >= 100), 5);
    assert_eq!(t.max_right(2, |_: &Sum| true), 2);
    assert_eq!(t.min_left(5, |s: &Sum| s.0 >= 9), 3);
    assert_eq!(t.min_left(5, |s: &Sum| s.0 >= 100), 0);
    assert_eq!(t.min_left(4, |_: &Sum| true), 4);
}
