use rayon_cond::cond::CondIterator;
use std::cmp::Ordering;

fn items(parallel: bool) -> CondIterator<u64> {
    CondIterator::new(vec![1, 2, 3], parallel)
}

#[test]
fn cmp_is_lexicographic() {
    for parallel in [true, false] {
        assert_eq!(items(parallel).cmp(vec![1, 2, 3]), Ordering::Equal);
        assert_eq!(items(parallel).cmp(vec![1, 2, 4]), Ordering::Less);
        assert_eq!(items(parallel).cmp(vec![1, 1, 9]), Ordering::Greater);
        assert_eq!(items(parallel).cmp(vec![1, 2]), Ordering::Greater);
        assert_eq!(items(parallel).cmp(vec![1, 2, 3, 0]), Ordering::Less);
        assert_eq!(CondIterator::new(Vec::<u64>::new(), parallel).cmp(vec![]), Ordering::Equal);
    }
}

#[test]
fn partial_cmp_always_compares() {
    for parallel in [true, false] {
        assert_eq!(items(parallel).partial_cmp(vec![1, 2, 3]), Some(Ordering::Equal));
        assert_eq!(items(parallel).partial_cmp(vec![2]), Some(Ordering::Less));
        assert_eq!(items(parallel).partial_cmp(vec![]), Some(Ordering::Greater));
    }
}

#[test]
fn eq_and_ne() {
    for parallel in [true, false] {
        assert!(items(parallel).eq(vec![1, 2, 3]));
        assert!(!items(parallel).eq(vec![1, 2]));
        assert!(!items(parallel).eq(vec![1, 2, 4]));
        assert!(items(parallel).ne(vec![1, 2]));
        assert!(!items(parallel).ne(vec![1, 2, 3]));
    }
}

#[test]
fn lt_le_gt_ge() {
    for parallel in [true, false] {
        assert!(items(parallel).lt(vec![1, 3]));
        assert!(!items(parallel).lt(vec![1, 2, 3]));
        assert!(items(parallel).le(vec![1, 2, 3]));
        assert!(!items(parallel).le(vec![1, 2]));
        assert!(items(parallel).gt(vec![1, 2]));
        assert!(!items(parallel).gt(vec![1, 2, 3]));
        assert!(items(parallel).ge(vec![1, 2, 3]));
        assert!(!items(parallel).ge(vec![5]));
    }
}

#[test]
fn cmp_swapping_sides_swaps_answer() {
    let pairs: Vec<(Vec<u64>, Vec<u64>)> = vec![
        (vec![1, 2, 3], vec![1, 2, 4]),
        (vec![1, 2], vec![1, 2, 0]),
        (vec![5], vec![5]),
        (vec![], vec![7]),
    ];
    for parallel in [true, false] {
        for (a, b) in &pairs {
            let ab = CondIterator::new(a.clone(), parallel).cmp(b.clone());
            let ba = CondIterator::new(b.clone(), parallel).cmp(a.clone());
            assert_eq!(ab, ba.reverse());
            let same = CondIterator::new(a.clone(), parallel).eq(b.clone());
            assert_eq!(same, ab == Ordering::Equal);
        }
    }
}

#[test]
fn min_by_max_by_pick_in_order_for_any_comparator() {
    for parallel in [true, false] {
        let v = vec![3u64, 1, 2];
        let always_greater = |_a: &u64, _b: &u64| Ordering::Greater;
        let always_less = |_a: &u64, _b: &u64| Ordering::Less;
        assert_eq!(CondIterator::new(v.clone(), parallel).min_by(always_greater), Some(2));
        assert_eq!(CondIterator::new(v.clone(), parallel).max_by(always_greater), Some(3));
        assert_eq!(CondIterator::new(v.clone(), parallel).min_by(always_less), Some(3));
        assert_eq!(CondIterator::new(v, parallel).max_by(always_less), Some(2));
    }
}
