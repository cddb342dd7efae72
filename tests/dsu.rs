use range_query::dsu::Dsu;

#[test]
fn dsu_unite_and_same() {
    let mut d = Dsu::new(6);
    assert_eq!(d.len(), 6);
    assert!(!d.is_empty());
    assert_eq!(d.num_components(), 6);
    assert!(d.unite(0, 1));
    assert!(d.unite(2, 3));
    assert!(!d.unite(1, 0));
    assert!(d.same(0, 1));
    assert!(!d.same(1, 2));
    assert!(d.unite(1, 3));
    assert!(d.same(0, 2));
    assert_eq!(d.num_components(), 3);
    assert_eq!(d.size(3), 4);
    assert_eq!(d.size(5), 1);
}

#[test]
fn dsu_roots() {
    let mut d = Dsu::new(4);
    assert!(d.is_root(2));
    d.unite(2, 3);
    let r = d.root(3);
    assert_eq!(d.root(2), r);
    assert!(d.is_root(r));
    assert!(!d.is_root(if r == 2 { 3 } else { 2 }));
}

#[test]
fn dsu_groups() {
    let mut d = Dsu::new(6);
    d.unite(4, 1);
    d.unite(0, 5);
    d.unite(1, 2);
    let mut g = d.groups();
    g.sort();
    assert_eq!(g, vec![vec![0, 5], vec![1, 2, 4], vec![3]]);
}

#[test]
fn dsu_empty() {
    let mut d = Dsu::new(0);
    assert!(d.is_empty());
    assert_eq!(d.num_components(), 0);
    assert!(d.groups().is_empty());
}

#[test]
fn dsu_chain_sizes() {
    let n = 100;
    let mut d = Dsu::new(n);
    for i in 1..n {
        assert!(d.unite(i - 1, i));
        assert_eq!(d.size(0), i + 1);
    }
    assert_eq!(d.num_components(), 1);
    assert_eq!(d.groups(), vec![(0..n).collect::<Vec<usize>>()]);
}
