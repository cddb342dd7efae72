use range_query::fenwick_tree::FenwickTree;
use range_query::monoids::Sum;

struct Lcg(u64);

impl Lcg {
    fn next(&mut self) -> u64 {
        self.0 = self.0.wrapping_mul(6364136223846793005).wrapping_add(1442695040888963407);
        self.0 >> 11
    }
}

#[test]
fn fenwick_prefix_and_range() {
    let t = FenwickTree::from_vec(vec![Sum(1), Sum(2), Sum(3), Sum(4), Sum(5)]);
    assert_eq!(t.len(), 5);
    assert_eq!(t.prefix_fold(0), Sum(0));
    assert_eq!(t.prefix_fold(3), Sum(6));
    assert_eq!(t.all_fold(), Sum(15));
    assert_eq!(t.range_fold(1, 4), Sum(9));
    assert_eq!(t.get(3), Sum(4));
}

#[test]
fn fenwick_operate_and_set() {
    let mut t = FenwickTree::from_slice(&[Sum(1), Sum(2), Sum(3), Sum(4), Sum(5)]);
    t.operate(2, Sum(7));
    assert_eq!(t.get(2), Sum(10));
    assert_eq!(t.range_fold(1, 4), Sum(16));
    t.set(0, Sum(100));
    assert_eq!(t.get(0), Sum(100));
    assert_eq!(t.all_fold(), Sum(100 + 2 + 10 + 4 + 5));
}

#[test]
fn fenwick_push_pop() {
    let mut t: FenwickTree<Sum> = FenwickTree::with_capacity(4);
    assert!(t.is_empty());
    assert_eq!(t.pop(), None);
    for x in 1..=6 {
        t.push(Sum(x));
    }
    assert_eq!(t.all_fold(), Sum(21));
    // node 6 holds elements 4 .. 6
    assert_eq!(t.pop(), Some(Sum(5 + 6)));
    assert_eq!(t.len(), 5);
    assert_eq!(t.all_fold(), Sum(15));
    t.reserve(10);
    assert_eq!(t.all_fold(), Sum(15));
}

#[test]
fn fenwick_new_and_empty() {
    let t: FenwickTree<Sum> = FenwickTree::new(0);
    assert!(t.is_empty());
    assert_eq!(t.all_fold(), Sum(0));
    let t: FenwickTree<Sum> = FenwickTree::new(4);
    assert_eq!(t.len(), 4);
    assert_eq!(t.range_fold(1, 3), Sum(0));
}

#[test]
fn fenwick_lower_bound() {
    let t = FenwickTree::from_vec(vec![Sum(1), Sum(2), Sum(3), Sum(4), Sum(5)]);
    assert_eq!(t.lower_bound(|s: &Sum| s.0 >= 6), 3);
    assert_eq!(t.lower_bound(|s: &Sum| s.0 >= 0), 0);
    assert_eq!(t.lower_bound(|s: &Sum| s.0 >= 100), 5);
}

#[test]
fn fenwick_matches_plain_array() {
    let mut rng = Lcg(11);
    for n in [1usize, 2, 5, 8, 13] {
        let mut a: Vec<u64> = (0..n).map(|_| rng.next() % 1000).collect();
        let mut t = FenwickTree::from_vec(a.iter().map(|&x| Sum(x)).collect());
        for _ in 0..200 {
            let i = (rng.next() % n as u64) as usize;
            let x = rng.next() % 1000;
            if rng.next() % 2 == 0 {
                t.set(i, Sum(x));
                a[i] = x;
            } else {
                t.operate(i, Sum(x));
                a[i] = a[i].wrapping_add(x);
            }
            let l = (rng.next() % (n as u64 + 1)) as usize;
            let r = (rng.next() % (n as u64 + 1)) as usize;
            let (l, r) = if l <= r { (l, r) } else { (r, l) };
            let want = a[l..r].iter().fold(0u64, |s, &v| s.wrapping_add(v));
            assert_eq!(t.range_fold(l, r), Sum(want));
        }
    }
}
