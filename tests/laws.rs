use range_query::algebra::{Action, Monoid};
use range_query::fenwick_tree::HasInverse;
use range_query::monoids::{Add, LexMin, Max, Min, Sum, SumLen};

struct Lcg(u64);

impl Lcg {
    fn next(&mut self) -> u64 {
        self.0 = self.0.wrapping_mul(6364136223846793005).wrapping_add(1442695040888963407);
        self.0 >> 11
    }
}

fn check_monoid<S: Monoid + PartialEq + std::fmt::Debug>(gen: &mut dyn FnMut() -> S) {
    for _ in 0..200 {
        let (x, y, z) = (gen(), gen(), gen());
        assert_eq!(S::id().op(&x), x);
        assert_eq!(x.op(&S::id()), x);
        assert_eq!(x.op(&y).op(&z), x.op(&y.op(&z)));
    }
}

#[test]
fn sum_laws() {
    let mut r = Lcg(1);
    check_monoid(&mut || Sum(r.next() << 8));
    assert_eq!(Sum(u64::MAX).op(&Sum(2)), Sum(1));
}

#[test]
fn min_laws() {
    let mut r = Lcg(2);
    check_monoid(&mut || Min(r.next() % 50));
    assert_eq!(Min(3).op(&Min(7)), Min(3));
    assert_eq!(Min::id(), Min(u64::MAX));
}

#[test]
fn max_laws() {
    let mut r = Lcg(3);
    check_monoid(&mut || Max(r.next() % 50));
    assert_eq!(Max(3).op(&Max(7)), Max(7));
    assert_eq!(Max::id(), Max(0));
}

#[test]
fn lexicographic_pair_laws() {
    let mut r = Lcg(4);
    check_monoid(&mut || LexMin(r.next() % 4, r.next() % 4));
    assert_eq!(LexMin(1, 9).op(&LexMin(2, 0)), LexMin(1, 9));
    assert_eq!(LexMin(2, 5).op(&LexMin(2, 3)), LexMin(2, 3));
}

#[test]
fn sum_len_laws() {
    let mut r = Lcg(5);
    check_monoid(&mut || SumLen { sum: r.next(), len: r.next() % 10 });
}

#[test]
fn add_action_laws() {
    let mut r = Lcg(6);
    check_monoid(&mut || Add(r.next()));
    for _ in 0..200 {
        let s = SumLen { sum: r.next(), len: r.next() % 100 };
        let t = SumLen { sum: r.next(), len: r.next() % 100 };
        let f = Add(r.next());
        let g = Add(r.next());
        assert_eq!(Add::id().act(&s), s);
        assert_eq!(f.op(&g).act(&s), f.act(&g.act(&s)));
        assert_eq!(f.act(&s.op(&t)), f.act(&s).op(&f.act(&t)));
    }
    assert_eq!(Add(100).act(&SumLen { sum: 6, len: 3 }), SumLen { sum: 306, len: 3 });
}

#[test]
fn sum_inverse() {
    let mut r = Lcg(7);
    for _ in 0..200 {
        let x = Sum(r.next());
        assert_eq!(x.op(&x.inv()), Sum::id());
        assert_eq!(x.inv().op(&x), Sum::id());
    }
    assert_eq!(Sum(5).inv(), Sum(u64::MAX - 4));
}
