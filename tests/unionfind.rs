use bioperm::unionfind::UnionFind;

#[test]
fn test_basics() {
    let mut uf = UnionFind::new(3);
    uf.union(1, 1);
    assert!(uf.group_count() == 3);
    uf.union(1, 2);
    assert!(uf.group_count() == 2);
    uf.union(0, 2);
    assert!(uf.group_count() == 1);
}

#[test]
fn find_reports_shared_root() {
    let mut uf = UnionFind::new(5);
    uf.union(0, 1);
    uf.union(3, 4);
    uf.union(1, 4);
    let r = uf.find(0);
    assert_eq!(uf.find(1), r);
    assert_eq!(uf.find(3), r);
    assert_eq!(uf.find(4), r);
    assert_ne!(uf.find(2), r);
    assert_eq!(uf.group_count(), 2);
}

#[test]
fn repeated_union_keeps_count() {
    let mut uf = UnionFind::new(4);
    uf.union(0, 1);
    uf.union(1, 0);
    uf.union(0, 1);
    assert_eq!(uf.group_count(), 3);
}

#[test]
fn empty_structure() {
    let uf = UnionFind::new(0);
    assert_eq!(uf.group_count(), 0);
}

#[test]
fn group_count_stays_between_one_and_n() {
    let mut uf = UnionFind::new(4);
    for (a, b) in [(0, 1), (1, 2), (2, 3), (3, 0)] {
        uf.union(a, b);
        assert!(uf.group_count() >= 1 && uf.group_count() <= 4);
    }
    assert_eq!(uf.group_count(), 1);
}

#[test]
fn find_returns_a_member_that_represents_itself() {
    let mut uf = UnionFind::new(5);
    for x in 0..5 {
        assert_eq!(uf.find(x), x as i32);
    }
    uf.union(0, 3);
    uf.union(3, 4);
    for x in [0usize, 3, 4] {
        let r = uf.find(x);
        assert_eq!(uf.find(r as usize), r);
        assert!(r == 0 || r == 3 || r == 4);
    }
    assert_eq!(uf.find(1), 1);
}
