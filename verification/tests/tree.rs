use catvec::Tree;

fn testvec(n: usize) -> Tree<usize, 5> {
    let mut tree = Tree::new();
    for i in 0..n {
        let idx = tree.len();
        tree.insert(idx, i);
    }
    tree
}

#[test]
fn basic_insertion() {
    let mut tree: Tree<usize, 5> = Tree::new();
    let mut vec = Vec::new();
    for i in 0..20 {
        let idx = tree.len() / 2;
        tree.insert(idx, i);
        assert_eq!(tree.get(idx).copied().unwrap(), i);
        vec.insert(idx, i)
    }
    tree.take_head(5);
}

#[test]
fn concat() {
    let mut tree: Tree<usize, 5> = testvec(125);
    tree.concat(testvec(1));
}

#[test]
fn concat_checks_out() {
    for (a, b) in [(0usize, 1usize), (1, 0), (5, 6), (25, 1), (1, 25), (125, 1), (1, 125), (100, 1), (60, 60)] {
        let mut tree = testvec(a);
        tree.concat(testvec(b));
        assert!(tree.check_invariants());
        assert_eq!(tree.len(), a + b);
        for k in 0..a {
            assert_eq!(tree.get(k).copied().unwrap(), k);
        }
        for k in 0..b {
            assert_eq!(tree.get(a + k).copied().unwrap(), k);
        }
        assert!(tree.get(a + b).is_none());
    }
}

#[test]
fn truncation_checks_out() {
    for n in [0usize, 1, 4, 5, 6, 11, 20, 125] {
        for k in 0..=n {
            let mut tree = testvec(n);
            tree.drop_head(k);
            assert!(tree.check_invariants());
            assert_eq!(tree.len(), n - k);
            for j in 0..(n - k) {
                assert_eq!(tree.get(j).copied().unwrap(), k + j);
            }

            let mut tree = testvec(n);
            tree.take_head(k);
            assert!(tree.check_invariants());
            assert_eq!(tree.len(), k);
            for j in 0..k {
                assert_eq!(tree.get(j).copied().unwrap(), j);
            }
        }
    }
}

#[test]
fn split_boundaries() {
    // one-node, single-split and multi-split sizes for a fanout of 5
    for n in [5usize, 6, 11] {
        let tree = testvec(n);
        assert!(tree.check_invariants());
        assert_eq!(tree.len(), n);
        for k in 0..n {
            assert_eq!(tree.get(k).copied().unwrap(), k);
        }
    }
}
