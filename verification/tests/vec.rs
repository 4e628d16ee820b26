use catvec::CatVec;

fn build(lo: u64, hi: u64) -> CatVec<u64, 5> {
    let mut v: CatVec<u64, 5> = CatVec::new();
    for i in lo..hi {
        v.push_back(i);
    }
    v
}

#[test]
fn grow_and_index() {
    let v = build(0, 20);
    assert_eq!(v.len(), 20);
    for k in 0..20 {
        assert_eq!(v.get(k as usize).copied(), Some(k));
    }
    assert!(v.get(20).is_none());
    assert!(v.check_invariants());
}

#[test]
fn mid_insert() {
    let mut v = build(0, 20);
    v.insert(0, 99);
    v.insert(10, 88);
    assert_eq!(v.get(0).copied(), Some(99));
    assert_eq!(v.get(10).copied(), Some(88));
    assert_eq!(v.get(1).copied(), Some(0));
    assert_eq!(v.get(11).copied(), Some(9));
    assert_eq!(v.len(), 22);
    assert!(v.check_invariants());
}

#[test]
fn slice() {
    let mut v = build(0, 20);
    v.slice_into(5, 15);
    assert_eq!(v.len(), 10);
    for k in 0..10u64 {
        assert_eq!(v.get(k as usize).copied(), Some(k + 5));
    }
    assert!(v.check_invariants());
}

#[test]
fn concat_equal_heights() {
    let mut a = build(0, 125);
    let b = build(125, 126);
    a.append(b);
    assert_eq!(a.len(), 126);
    for k in 0..126 {
        assert_eq!(a.get(k as usize).copied(), Some(k));
    }
    assert!(a.check_invariants());
}

#[test]
fn concat_unequal_heights() {
    let mut a = build(0, 100);
    let b = build(100, 101);
    a.append(b);
    assert_eq!(a.to_vec(), (0..101).collect::<Vec<u64>>());
    assert!(a.check_invariants());

    // and in the other ordering: the short tree on the left
    let mut c = build(0, 1);
    let d = build(1, 101);
    c.append(d);
    assert_eq!(c.to_vec(), (0..101).collect::<Vec<u64>>());
    assert!(c.check_invariants());
}

#[test]
fn clone_independence() {
    let a = build(0, 50);
    let mut b = a.clone();
    b.insert(0, 999);
    assert_eq!(a.get(0).copied(), Some(0));
    assert_eq!(b.get(0).copied(), Some(999));
    assert_eq!(a.len(), 50);
    assert_eq!(b.len(), 51);
    assert!(a.check_invariants());
    assert!(b.check_invariants());
}

#[test]
fn empty_concat_either_side() {
    let mut a = build(0, 10);
    a.append(CatVec::new());
    assert_eq!(a.to_vec(), (0..10).collect::<Vec<u64>>());
    assert!(a.check_invariants());

    let mut b: CatVec<u64, 5> = CatVec::new();
    b.append(build(0, 10));
    assert_eq!(b.to_vec(), (0..10).collect::<Vec<u64>>());
    assert!(b.check_invariants());

    let mut c: CatVec<u64, 5> = CatVec::new();
    c.append(CatVec::new());
    assert_eq!(c.len(), 0);
    assert!(c.check_invariants());
}

#[test]
fn edge_growth() {
    // repeated insertion at the left edge, the right edge and the midpoint
    let mut left: CatVec<u64, 5> = CatVec::new();
    let mut right: CatVec<u64, 5> = CatVec::new();
    let mut mid: CatVec<u64, 5> = CatVec::new();
    for i in 0..40u64 {
        left.insert(0, i);
        let n = right.len();
        right.insert(n, i);
        let m = mid.len() / 2;
        mid.insert(m, i);
        assert!(left.check_invariants());
        assert!(right.check_invariants());
        assert!(mid.check_invariants());
    }
    assert_eq!(left.to_vec(), (0..40u64).rev().collect::<Vec<u64>>());
    assert_eq!(right.to_vec(), (0..40).collect::<Vec<u64>>());
    assert_eq!(mid.len(), 40);
}

#[test]
fn slicing_edges() {
    let v = build(0, 20);

    let mut w = v.clone();
    w.slice_into(0, 20);
    assert_eq!(w.to_vec(), (0..20).collect::<Vec<u64>>());
    assert!(w.check_invariants());

    let mut w = v.clone();
    w.slice_into(7, 7);
    assert_eq!(w.len(), 0);
    assert!(w.check_invariants());

    let mut w = v.clone();
    w.slice_into(0, 1);
    assert_eq!(w.to_vec(), vec![0u64]);
    assert!(w.check_invariants());

    let mut w = v.clone();
    w.slice_into(19, 20);
    assert_eq!(w.to_vec(), vec![19u64]);
    assert!(w.check_invariants());
}

#[test]
fn slice_equivalence() {
    let dense: Vec<u64> = (0..30).collect();
    for lo in [0usize, 3, 14, 29, 30] {
        for hi in [0usize, 5, 15, 29, 30] {
            if lo <= hi {
                let mut w = build(0, 30);
                w.slice_into(lo, hi);
                assert_eq!(w.to_vec(), dense[lo..hi].to_vec());
                assert!(w.check_invariants());
            }
        }
    }
}

#[test]
fn concat_equivalence() {
    for (a, b) in [(0u64, 7u64), (7, 0), (5, 5), (6, 17), (26, 3)] {
        let mut x = build(0, a);
        x.append(build(a, a + b));
        assert_eq!(x.to_vec(), (0..a + b).collect::<Vec<u64>>());
        assert!(x.check_invariants());
    }
}

#[test]
fn equality() {
    let a = build(0, 30);
    let b = build(0, 30);
    let c = build(0, 29);
    let mut d = build(0, 30);
    d.insert(15, 1000);
    assert!(a.equals(&a));
    assert!(a.equals(&b));
    assert!(b.equals(&a));
    assert!(!a.equals(&c));
    assert!(!c.equals(&a));
    assert!(!a.equals(&d));
}

#[test]
fn dense_round_trip() {
    let dense: Vec<u64> = (0..77).collect();
    let v: CatVec<u64, 5> = CatVec::from_slice(&dense);
    assert_eq!(v.len(), 77);
    assert!(v.check_invariants());
    assert_eq!(v.to_vec(), dense);
}

#[test]
fn overwrite() {
    let mut v = build(0, 30);
    let w = v.clone();
    assert!(v.set(7, 700));
    assert!(!v.set(30, 1));
    assert_eq!(v.get(7).copied(), Some(700));
    assert_eq!(w.get(7).copied(), Some(7));
    assert_eq!(v.len(), 30);
    assert!(v.check_invariants());
    assert!(w.check_invariants());
}

#[test]
fn shadow_program() {
    // a fixed pseudo-random program of pushes, inserts, slices and appends,
    // run against a dense shadow vector
    let mut seed: u64 = 0x2545F4914F6CDD1D;
    let mut next = move || {
        seed ^= seed << 13;
        seed ^= seed >> 7;
        seed ^= seed << 17;
        seed
    };
    let mut v: CatVec<u64, 5> = CatVec::new();
    let mut shadow: Vec<u64> = Vec::new();
    for step in 0..400u64 {
        match next() % 4 {
            0 => {
                v.push_back(step);
                shadow.push(step);
            }
            1 => {
                let i = (next() as usize) % (shadow.len() + 1);
                v.insert(i, step);
                shadow.insert(i, step);
            }
            2 => {
                if !shadow.is_empty() {
                    let lo = (next() as usize) % shadow.len();
                    let hi = lo + (next() as usize) % (shadow.len() - lo + 1);
                    v.slice_into(lo, hi);
                    shadow = shadow[lo..hi].to_vec();
                }
            }
            _ => {
                let n = (next() as usize) % 40;
                let mut tail: Vec<u64> = Vec::new();
                for k in 0..n {
                    tail.push(step * 1000 + k as u64);
                }
                v.append(CatVec::from_slice(&tail));
                shadow.extend_from_slice(&tail);
            }
        }
        assert!(v.check_invariants());
        assert_eq!(v.to_vec(), shadow);
    }
}
