use rayon_cond::cond::CondIterator;
use rayon_cond::side::Either;
use std::sync::Mutex;

fn items(parallel: bool) -> CondIterator<u64> {
    CondIterator::new(vec![3, 1, 4, 1, 5], parallel)
}

#[test]
fn for_each_visits_every_item() {
    for parallel in [true, false] {
        let total = Mutex::new(0u64);
        items(parallel).for_each(|x| *total.lock().unwrap() += x);
        assert_eq!(*total.lock().unwrap(), 14);
    }
}

#[test]
fn for_each_with_visits_every_item() {
    for parallel in [true, false] {
        let seen = Mutex::new(Vec::new());
        items(parallel).for_each_with(10u64, |s: &mut u64, x| seen.lock().unwrap().push(*s + x));
        let mut got = seen.into_inner().unwrap();
        got.sort();
        assert_eq!(got, vec![11, 11, 13, 14, 15]);
    }
}

#[test]
fn for_each_with_serial_shares_one_state() {
    let seen = Mutex::new(Vec::new());
    items(false).for_each_with(0u64, |s: &mut u64, x| {
        *s += x;
        seen.lock().unwrap().push(*s);
    });
    assert_eq!(seen.into_inner().unwrap(), vec![3, 4, 8, 9, 14]);
}

#[test]
fn for_each_init_visits_every_item() {
    for parallel in [true, false] {
        let total = Mutex::new(0u64);
        items(parallel).for_each_init(|| 2u64, |s: &mut u64, x| *total.lock().unwrap() += *s * x);
        assert_eq!(*total.lock().unwrap(), 28);
    }
}

#[test]
fn count_counts() {
    for parallel in [true, false] {
        assert_eq!(items(parallel).count(), 5);
        assert_eq!(CondIterator::new(Vec::<u64>::new(), parallel).count(), 0);
    }
}

#[test]
fn reduce_sums_with_identity() {
    for parallel in [true, false] {
        assert_eq!(items(parallel).reduce(|| 0, |a, b| a + b), 14);
        assert_eq!(CondIterator::new(Vec::<u64>::new(), parallel).reduce(|| 0, |a, b| a + b), 0);
    }
}

#[test]
fn reduce_keeps_order_for_associative_op() {
    let words: Vec<String> = (0..50).map(|i| format!("{}", i % 10)).collect();
    let expected: String = words.concat();
    for parallel in [true, false] {
        let got = CondIterator::new(words.clone(), parallel).reduce(String::new, |a, b| a + &b);
        assert_eq!(got, expected);
    }
}

#[test]
fn reduce_with_none_on_empty() {
    for parallel in [true, false] {
        assert_eq!(items(parallel).reduce_with(|a, b| a * b), Some(60));
        assert_eq!(CondIterator::new(Vec::<u64>::new(), parallel).reduce_with(|a, b| a + b), None);
        assert_eq!(CondIterator::new(vec![7u64], parallel).reduce_with(|a, b| a + b), Some(7));
    }
}

#[test]
fn sum_and_product() {
    for parallel in [true, false] {
        assert_eq!(items(parallel).sum(), 14);
        assert_eq!(items(parallel).product(), 60);
        assert_eq!(CondIterator::new(Vec::<u64>::new(), parallel).sum(), 0);
        assert_eq!(CondIterator::new(Vec::<u64>::new(), parallel).product(), 1);
        assert_eq!(CondIterator::new(vec![5u64, 0, 9], parallel).product(), 0);
    }
}

#[test]
fn product_with_zero_and_large_items() {
    for parallel in [true, false] {
        let v = vec![1u64 << 31, 0, 1u64 << 31];
        assert_eq!(CondIterator::new(v, parallel).product(), 0);
    }
}

#[test]
fn min_and_max() {
    for parallel in [true, false] {
        assert_eq!(items(parallel).min(), Some(1));
        assert_eq!(items(parallel).max(), Some(5));
        assert_eq!(CondIterator::new(Vec::<u64>::new(), parallel).min(), None);
        assert_eq!(CondIterator::new(Vec::<u64>::new(), parallel).max(), None);
    }
}

#[test]
fn min_by_and_max_by() {
    for parallel in [true, false] {
        let v = vec![(2u64, 'a'), (1, 'b'), (3, 'c')];
        assert_eq!(CondIterator::new(v.clone(), parallel).min_by(|a, b| a.0.cmp(&b.0)), Some((1, 'b')));
        assert_eq!(CondIterator::new(v, parallel).max_by(|a, b| a.0.cmp(&b.0)), Some((3, 'c')));
        let empty: Vec<(u64, char)> = Vec::new();
        assert_eq!(CondIterator::new(empty, parallel).min_by(|a, b| a.0.cmp(&b.0)), None);
    }
}

#[test]
fn min_by_key_first_and_max_by_key_last_on_ties() {
    for parallel in [true, false] {
        let v = vec![(1u64, 'a'), (0, 'b'), (0, 'c'), (1, 'd')];
        assert_eq!(CondIterator::new(v.clone(), parallel).min_by_key(|p| p.0), Some((0, 'b')));
        assert_eq!(CondIterator::new(v, parallel).max_by_key(|p| p.0), Some((1, 'd')));
        let empty: Vec<(u64, char)> = Vec::new();
        assert_eq!(CondIterator::new(empty.clone(), parallel).min_by_key(|p| p.0), None);
        assert_eq!(CondIterator::new(empty, parallel).max_by_key(|p| p.0), None);
    }
}

#[test]
fn find_variants() {
    for parallel in [true, false] {
        let v = vec![1u64, 6, 3, 8, 5];
        let any = CondIterator::new(v.clone(), parallel).find_any(|x| *x % 2 == 0);
        assert!(any == Some(6) || any == Some(8));
        assert_eq!(CondIterator::new(v.clone(), parallel).find_first(|x| *x % 2 == 0), Some(6));
        assert_eq!(CondIterator::new(v.clone(), parallel).find_last(|x| *x % 2 == 0), Some(8));
        assert_eq!(CondIterator::new(v.clone(), parallel).find_any(|x| *x > 100), None);
        assert_eq!(CondIterator::new(v.clone(), parallel).find_first(|x| *x > 100), None);
        assert_eq!(CondIterator::new(v, parallel).find_last(|x| *x > 100), None);
    }
}

#[test]
fn position_variants() {
    for parallel in [true, false] {
        let v = vec![1u64, 6, 3, 8, 5];
        let any = CondIterator::new(v.clone(), parallel).position_any(|x| x % 2 == 0);
        assert!(any == Some(1) || any == Some(3));
        assert_eq!(CondIterator::new(v.clone(), parallel).position_first(|x| x % 2 == 0), Some(1));
        assert_eq!(CondIterator::new(v.clone(), parallel).position_last(|x| x % 2 == 0), Some(3));
        assert_eq!(CondIterator::new(v.clone(), parallel).position_any(|x| x > 100), None);
        assert_eq!(CondIterator::new(v.clone(), parallel).position_first(|x| x > 100), None);
        assert_eq!(CondIterator::new(v, parallel).position_last(|x| x > 100), None);
    }
}

#[test]
fn any_and_all() {
    for parallel in [true, false] {
        assert!(items(parallel).any(|x| x == 4));
        assert!(!items(parallel).any(|x| x == 9));
        assert!(items(parallel).all(|x| x > 0));
        assert!(!items(parallel).all(|x| x > 1));
        assert!(!CondIterator::new(Vec::<u64>::new(), parallel).any(|_| true));
        assert!(CondIterator::new(Vec::<u64>::new(), parallel).all(|_| false));
    }
}

#[test]
fn collect_keeps_order() {
    for parallel in [true, false] {
        assert_eq!(items(parallel).collect(), vec![3, 1, 4, 1, 5]);
    }
}

#[test]
fn partition_splits_in_order() {
    for parallel in [true, false] {
        let (odd, even) = items(parallel).partition(|x| *x % 2 == 1);
        assert_eq!(odd, vec![3, 1, 1, 5]);
        assert_eq!(even, vec![4]);
    }
}

#[test]
fn partition_map_splits_by_side() {
    for parallel in [true, false] {
        let (small, big): (Vec<u64>, Vec<String>) = items(parallel).partition_map(|x| {
            if x < 3 {
                Either::Left(x)
            } else {
                Either::Right(format!("{}", x))
            }
        });
        assert_eq!(small, vec![1, 1]);
        assert_eq!(big, vec!["3".to_string(), "4".to_string(), "5".to_string()]);
    }
}

#[test]
fn collect_into_vec_replaces_contents() {
    for parallel in [true, false] {
        let mut target = vec![9u64, 9, 9, 9, 9, 9, 9];
        items(parallel).collect_into_vec(&mut target);
        assert_eq!(target, vec![3, 1, 4, 1, 5]);
    }
}

#[test]
fn unzip_splits_pairs() {
    for parallel in [true, false] {
        let (a, b) = CondIterator::new(vec![(1u64, 'x'), (2, 'y')], parallel).unzip();
        assert_eq!(a, vec![1, 2]);
        assert_eq!(b, vec!['x', 'y']);
    }
}

#[test]
fn unzip_into_vecs_replaces_contents() {
    for parallel in [true, false] {
        let mut a = vec![7u64];
        let mut b = vec!['q', 'r', 's'];
        CondIterator::new(vec![(1u64, 'x'), (2, 'y')], parallel).unzip_into_vecs(&mut a, &mut b);
        assert_eq!(a, vec![1, 2]);
        assert_eq!(b, vec!['x', 'y']);
    }
}

#[test]
fn len_counts_items() {
    for parallel in [true, false] {
        assert_eq!(items(parallel).len(), 5);
        assert_eq!(items(parallel).map(|x| x + 1).len(), 5);
    }
}

#[test]
fn opt_len_known_for_collections_and_kept_by_map() {
    for parallel in [true, false] {
        assert_eq!(items(parallel).opt_len(), Some(5));
        assert_eq!(items(parallel).map(|x| x * 2).opt_len(), Some(5));
        assert_eq!(items(parallel).enumerate().skip(1).opt_len(), Some(4));
        assert_eq!(items(parallel).intersperse(0).opt_len(), Some(9));
        assert_eq!(items(parallel).chain(vec![1, 2]).opt_len(), Some(7));
    }
}

#[test]
fn opt_len_lost_by_filter() {
    for parallel in [true, false] {
        assert_eq!(items(parallel).filter(|x| *x > 2).opt_len(), None);
        assert_eq!(items(parallel).flat_map(|x| vec![x]).opt_len(), None);
        assert_eq!(items(parallel).filter(|x| *x > 2).map(|x| x + 1).opt_len(), None);
    }
}

#[test]
fn opt_len_of_empty_filter_depends_on_mode() {
    assert_eq!(CondIterator::new(Vec::<u64>::new(), false).filter(|_| true).opt_len(), Some(0));
    assert_eq!(CondIterator::new(Vec::<u64>::new(), true).filter(|_| true).opt_len(), None);
}

#[test]
fn opt_len_after_fold_depends_on_mode() {
    assert_eq!(items(false).fold(|| 0u64, |a, x| a + x).opt_len(), Some(1));
    assert_eq!(items(true).fold(|| 0u64, |a, x| a + x).opt_len(), None);
}

#[test]
fn opt_len_after_into_parallel() {
    assert_eq!(items(true).into_parallel().opt_len(), Some(5));
    assert_eq!(items(false).into_parallel().opt_len(), None);
}

#[test]
fn reduce_with_serial_left_fold_from_first() {
    assert_eq!(CondIterator::new(vec![1i32, 2, 3], false).reduce_with(|a, b| a - b), Some(-4));
}

#[test]
fn product_serial_zero_before_overflow() {
    let v = vec![0u64, 1u64 << 63, 4];
    assert_eq!(CondIterator::new(v, false).product(), 0);
}

#[test]
fn opt_len_of_fresh_iterators() {
    for parallel in [true, false] {
        assert_eq!(CondIterator::new(vec![1u64, 2, 3], parallel).opt_len(), Some(3));
        assert_eq!(CondIterator::new(vec![1u64, 2, 3], parallel).filter(|x| *x > 1).opt_len(), None);
    }
    assert_eq!(CondIterator::from_iter(vec![1u64, 2]).opt_len(), Some(2));
    assert_eq!(CondIterator::from_par_iter(vec![1u64, 2]).opt_len(), Some(2));
}
