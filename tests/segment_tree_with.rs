use range_query::segment_tree_with::SegmentTreeWith;

struct Lcg(u64);

impl Lcg {
    fn next(&mut self) -> u64 {
        self.0 = self.0.wrapping_mul(6364136223846793005).wrapping_add(1442695040888963407);
        self.0 >> 11
    }
}

#[test]
fn closure_sum_scenario() {
    let mut t = SegmentTreeWith::from_vec(vec![1i64, 2, 3, 4, 5], 0, |a: &i64, b: &i64| a + b);
    assert_eq!(t.range_fold(1, 4), 9);
    assert_eq!(t.all_fold(), 15);
    t.set(2, 10);
    assert_eq!(t.range_fold(1, 4), 16);
    assert_eq!(t.get(2), 10);
    t.operate(0, 5);
    assert_eq!(t.get(0), 6);
}

#[test]
fn closure_tree_empty_and_single() {
    let t = SegmentTreeWith::new(0, i64::MAX, |a: &i64, b: &i64| *a.min(b));
    assert!(t.is_empty());
    assert_eq!(t.range_fold(0, 0), i64::MAX);
    assert_eq!(t.all_fold(), i64::MAX);
    let mut t = SegmentTreeWith::new(1, i64::MAX, |a: &i64, b: &i64| *a.min(b));
    assert_eq!(t.len(), 1);
    t.set(0, -4);
    assert_eq!(t.all_fold(), -4);
}

#[test]
fn closure_tree_from_slice_with_strings() {
    let words = ["ab".to_string(), "c".to_string(), "de".to_string()];
    let t = SegmentTreeWith::from_slice(&words, String::new(), |a: &String, b: &String| {
        format!("{}{}", a, b)
    });
    assert_eq!(t.all_fold(), "abcde");
    assert_eq!(t.range_fold(1, 3), "cde");
    assert_eq!(t.range_fold(0, 2), "abc");
}

#[test]
fn closure_tree_matches_plain_array() {
    let mut rng = Lcg(9);
    for n in [1usize, 3, 4, 7, 12] {
        let mut a: Vec<i64> = (0..n).map(|_| (rng.next() % 100) as i64).collect();
        let mut t = SegmentTreeWith::from_vec(a.clone(), i64::MIN, |x: &i64, y: &i64| *x.max(y));
        for _ in 0..200 {
            let i = (rng.next() % n as u64) as usize;
            let x = (rng.next() % 100) as i64;
            t.set(i, x);
            a[i] = x;
            let l = (rng.next() % (n as u64 + 1)) as usize;
            let r = (rng.next() % (n as u64 + 1)) as usize;
            let (l, r) = if l <= r { (l, r) } else { (r, l) };
            let want = a[l..r].iter().copied().fold(i64::MIN, i64::max);
            assert_eq!(t.range_fold(l, r), want);
        }
    }
}

#[test]
fn closure_tree_boundary_searches() {
    let t = SegmentTreeWith::from_vec(vec![1i64, 2, 3, 4, 5], 0, |a: &i64, b: &i64| a + b);
    assert_eq!(t.max_right(0, |s: &i64| *s >= 6), 3);
    assert_eq!(t.max_right(0, |s: &i64| *s >= 100), 5);
    assert_eq!(t.min_left(5, |s: &i64| *s >= 9), 3);
    assert_eq!(t.min_left(5, |s: &i64| *s >= 100), 0);
}
